//! The machine: its store and registers, the primitives Load and NextCh,
//! the step loop, and the interface that feeds it input.
use vstd::prelude::*;
use crate::control_chars::{Cell, ControlChars};
use crate::pc::Pc;
use crate::text::{
    code, copied_at_top, depth, lemma_plain_text, lemma_quoted_text, lemma_text_push, plain_text,
    quoted, text_out, top_level_text,
};

verus! {

broadcast use vstd::string::axiom_spec_iter;

/// The sentinel that ends items and argument lists; no character or tag equals it.
pub const MARKER: Cell = -1048576;

/// The largest store: every index must fit in a cell.
pub const MAX_STORE: usize = 0x7fff_ffff;

/// Cells taken by the table of machine macros at the base of the store.
pub const MST_LEN: usize = 39;

/// How many steps in a row `run` takes without reading a character of input
/// before it hands control back to its caller.
pub const STEP_LIMIT: u64 = 0xffff_ffff_ffff_ffff;

/// The scalar value of a character.
pub open spec fn scalar(ch: char) -> u32 {
    ch as u32
}

/// The character written for a cell: the character with that code, or the
/// replacement character where there is none.
pub open spec fn symbol_of(x: Cell) -> char {
    if exists|ch: char| code(ch) == x {
        choose|ch: char| code(ch) == x
    } else {
        '\u{fffd}'
    }
}

/// The machine macros' table: six entries `[link, len, name.., tag]`.
pub open spec fn mst() -> Seq<Cell> {
    seq![
        -1i32, 4i32, 'D' as Cell, 'E' as Cell, 'F' as Cell, -1i32,
        0i32, 4i32, 'V' as Cell, 'A' as Cell, 'L' as Cell, -2i32,
        6i32, 7i32, 'U' as Cell, 'P' as Cell, 'D' as Cell, 'A' as Cell, 'T' as Cell, 'E' as Cell, -3i32,
        12i32, 4i32, 'B' as Cell, 'I' as Cell, 'N' as Cell, -4i32,
        21i32, 4i32, 'D' as Cell, 'E' as Cell, 'C' as Cell, -5i32,
        27i32, 4i32, 'B' as Cell, 'A' as Cell, 'R' as Cell, -6i32,
    ]
}

/// Appends the characters of `chunk` to `v`.
fn append_chars(v: &mut Vec<char>, chunk: &str)
    ensures
        final(v)@ == old(v)@ + chunk@,
{
    for ch in it: chunk.chars()
        invariant
            it.seq() == chunk@,
            v@ == old(v)@ + it.seq().subrange(0, it.index() as int),
    {
        v.push(ch);
        assert(v@ == old(v)@ + it.seq().subrange(0, it.index() as int + 1));
    }
    assert(chunk@.subrange(0, chunk@.len() as int) == chunk@);
}

/// How many steps without reading input lead to each label of the main
/// cycle while `run` copies text.
spec fn idle_bound(pc: Pc) -> int {
    match pc {
        Pc::Copy => 1,
        Pc::Scan => 2,
        Pc::NoInput => 4,
        _ => 3,
    }
}

/// `x` as a cell, where it fits in one.
pub(crate) fn to_cell(x: i64) -> (r: Option<Cell>)
    ensures
        Cell::MIN <= x <= Cell::MAX ==> r == Some(x as Cell),
        !(Cell::MIN <= x <= Cell::MAX) ==> r is None,
{
    if Cell::MIN as i64 <= x && x <= Cell::MAX as i64 {
        Some(x as Cell)
    } else {
        None
    }
}

/// Relies on `char::from_u32`: `Some` of the character with code `x`, `None` where there is none.
#[verifier::external_body]
fn char_from_code(x: u32) -> (r: Option<char>)
    ensures
        r matches Some(ch) ==> scalar(ch) == x,
        r is None ==> forall|ch: char| #[trigger] scalar(ch) != x,
{
    char::from_u32(x)
}

/// Relies on `String::push`: appends one character.
#[verifier::external_body]
fn push_char(s: &mut String, ch: char)
    ensures
        final(s)@ == old(s)@.push(ch),
{
    s.push(ch)
}

/// A character's cell and scalar value are its code point.
proof fn lemma_code(ch: char)
    ensures
        code(ch) as int == ch as int,
        scalar(ch) as int == ch as int,
        0 <= ch as int <= 0x10FFFF,
{
}

/// The character written for cell `x`.
pub(crate) fn symbol(x: Cell) -> (r: char)
    ensures
        r == symbol_of(x),
{
    if x < 0 {
        assert forall|ch: char| code(ch) != x by {
            lemma_code(ch);
        }
        return '\u{fffd}';
    }
    match char_from_code(x as u32) {
        Some(ch) => {
            proof {
                lemma_code(ch);
            }
            assert(code(ch) == x);
            assert forall|d: char| code(d) == x implies d == ch by {
                lemma_code(d);
            }
            ch
        },
        None => {
            assert forall|ch: char| code(ch) != x by {
                lemma_code(ch);
                assert(scalar(ch) != x as u32);
            }
            '\u{fffd}'
        },
    }
}

/// A symbol written back for a character is that character.
proof fn lemma_symbol_of_code(ch: char)
    ensures
        symbol_of(code(ch)) == ch,
{
    lemma_code(ch);
    assert forall|d: char| code(d) == code(ch) implies d == ch by {
        lemma_code(d);
    }
}

/// What NextCh found.
#[derive(PartialEq, Eq, Structural)]
pub(crate) enum Fetch {
    /// A character, now in `A`.
    Got,
    /// The pending input is used up.
    Starved,
    /// `C` points outside the store.
    Fault,
}

/// The machine: a store of cells, its registers, and the pending input and output.
pub struct GpmVm {
    pub(crate) cc: ControlChars,
    pub(crate) st: Vec<Cell>,
    pub(crate) a: Cell,
    pub(crate) w: Cell,
    pub(crate) h: Cell,
    pub(crate) p: Cell,
    pub(crate) f: Cell,
    pub(crate) c: Cell,
    pub(crate) s: Cell,
    pub(crate) e: Cell,
    pub(crate) q: Cell,
    pub(crate) pc: Pc,
    pub(crate) resume: Pc,
    pub(crate) input: Vec<char>,
    pub(crate) ipos: usize,
    pub(crate) output: Vec<char>,
}

impl GpmVm {
    /// The part of the invariant that holds between any two actions.
    pub(crate) open spec fn core_wf(&self) -> bool {
        &&& MST_LEN <= self.st@.len() <= MAX_STORE
        &&& 0 <= self.s <= self.st@.len()
        &&& self.q >= 1
        &&& self.ipos <= self.input@.len()
    }

    /// The machine's invariant: store within bounds, quote depth positive,
    /// and quoted copying only at a depth above one.
    pub closed spec fn wf(&self) -> bool {
        &&& self.core_wf()
        &&& (self.pc == Pc::Q2 ==> self.q >= 2)
        &&& (self.pc == Pc::NoInput && self.resume == Pc::Q2 ==> self.q >= 2)
    }

    /// Size of the store in cells.
    pub closed spec fn mem_size(&self) -> nat {
        self.st@.len()
    }

    /// Top of the stack.
    pub closed spec fn stack_top(&self) -> int {
        self.s as int
    }

    /// Quote depth.
    pub closed spec fn quote_depth(&self) -> int {
        self.q as int
    }

    /// The warning characters the machine was built with.
    pub closed spec fn control_chars(&self) -> ControlChars {
        self.cc
    }

    /// The whole store.
    pub closed spec fn store(&self) -> Seq<Cell> {
        self.st@
    }

    /// Head of the chain of definitions (register E).
    pub closed spec fn env(&self) -> int {
        self.e as int
    }

    /// The registers H, P, F and C: item under construction, current call,
    /// call being built, and input cursor.
    pub closed spec fn frame_regs(&self) -> (int, int, int, int) {
        (self.h as int, self.p as int, self.f as int, self.c as int)
    }

    /// Output produced and not yet handed out.
    pub closed spec fn pending_output(&self) -> Seq<char> {
        self.output@
    }

    /// The machine waits for input at the top level: no call in progress
    /// or being built, input read from outside, nothing pending, and the
    /// label to resume at matching the quote depth.
    pub closed spec fn at_top_level(&self) -> bool {
        &&& self.h == 0
        &&& self.c == 0
        &&& self.p == 0
        &&& self.ipos == self.input@.len()
        &&& self.output@.len() == 0
        &&& {
            ||| self.pc == Pc::Finish && self.q == 1
            ||| self.pc == Pc::NoInput && self.resume == Pc::Start && self.q == 1
            ||| self.pc == Pc::NoInput && self.resume == Pc::Q2 && self.q >= 2
        }
    }

    /// Fields other than the store and the output are those of `o`.
    pub(crate) open spec fn regs_same(&self, o: &Self) -> bool {
        &&& self.cc == o.cc
        &&& self.a == o.a
        &&& self.w == o.w
        &&& self.h == o.h
        &&& self.p == o.p
        &&& self.f == o.f
        &&& self.c == o.c
        &&& self.s == o.s
        &&& self.e == o.e
        &&& self.q == o.q
        &&& self.input == o.input
        &&& self.ipos == o.ipos
    }

    /// Registers and input other than E are those of `o`.
    pub(crate) open spec fn regs_same_but_e(&self, o: &Self) -> bool {
        &&& self.cc == o.cc
        &&& self.a == o.a
        &&& self.w == o.w
        &&& self.h == o.h
        &&& self.p == o.p
        &&& self.f == o.f
        &&& self.c == o.c
        &&& self.s == o.s
        &&& self.q == o.q
        &&& self.input == o.input
        &&& self.ipos == o.ipos
    }

    /// Everything but the pending input is that of `o`.
    pub(crate) open spec fn same_but_input(&self, o: &Self) -> bool {
        &&& self.cc == o.cc
        &&& self.st == o.st
        &&& self.a == o.a
        &&& self.w == o.w
        &&& self.h == o.h
        &&& self.p == o.p
        &&& self.f == o.f
        &&& self.c == o.c
        &&& self.s == o.s
        &&& self.e == o.e
        &&& self.q == o.q
        &&& self.pc == o.pc
        &&& self.resume == o.resume
        &&& self.output == o.output
    }

    /// Everything but the pending output is that of `o`.
    pub closed spec fn same_but_output(&self, o: &Self) -> bool {
        &&& self.regs_same(o)
        &&& self.pc == o.pc
        &&& self.resume == o.resume
        &&& self.st == o.st
    }

    /// The invariant holds, and nothing but the store's contents, the output
    /// and the registers `A`..`E` differ from `o`.
    pub(crate) open spec fn frame(&self, o: &Self) -> bool {
        &&& self.core_wf()
        &&& self.cc == o.cc
        &&& self.input == o.input
        &&& self.ipos == o.ipos
        &&& self.st@.len() == o.st@.len()
        &&& self.pc == o.pc
        &&& self.resume == o.resume
        &&& self.q == o.q
    }

    /// What an action other than Start and Q2 keeps.
    pub(crate) open spec fn op_post(&self, o: &Self, r: Pc) -> bool {
        &&& self.core_wf()
        &&& self.cc == o.cc
        &&& self.input == o.input
        &&& o.ipos <= self.ipos
        &&& self.st@.len() == o.st@.len()
        &&& self.pc == o.pc
        &&& self.resume == o.resume
        &&& self.q == o.q
        &&& r != Pc::Q2
    }

    /// `self` is `o` after Load has taken `cells` one after another: onto
    /// the output at the top level, else onto the stack.
    pub(crate) open spec fn loaded(&self, o: &Self, cells: Seq<Cell>) -> bool {
        if o.h == 0 {
            &&& self.output@ == o.output@ + cells.map_values(|x: Cell| symbol_of(x))
            &&& self.st@ == o.st@
            &&& self.s == o.s
        } else {
            &&& self.output@ == o.output@
            &&& o.s + cells.len() <= o.st@.len()
            &&& self.s == o.s + cells.len()
            &&& self.st@ == o.st@.subrange(0, o.s as int) + cells + o.st@.subrange(
                o.s + cells.len(),
                o.st@.len() as int,
            )
        }
    }

    /// One more Load extends what has been loaded by `A`.
    pub(crate) proof fn lemma_load_more(&self, mid: &Self, o: &Self, cells: Seq<Cell>)
        requires
            mid.loaded(o, cells),
            mid.h == o.h,
            mid.core_wf(),
            o.core_wf(),
            mid.st@.len() == o.st@.len(),
            o.h == 0 ==> self.output@ == mid.output@.push(symbol_of(mid.a)) && self.st@
                == mid.st@ && self.s == mid.s,
            o.h != 0 ==> self.output@ == mid.output@ && mid.s < mid.st@.len() && self.st@
                == mid.st@.update(mid.s as int, mid.a) && self.s == mid.s + 1,
        ensures
            self.loaded(o, cells.push(mid.a)),
    {
        if o.h == 0 {
            assert(cells.push(mid.a).map_values(|x: Cell| symbol_of(x)) =~= cells.map_values(
                |x: Cell| symbol_of(x),
            ).push(symbol_of(mid.a)));
            assert(self.output@ =~= o.output@ + cells.push(mid.a).map_values(
                |x: Cell| symbol_of(x),
            ));
        } else {
            let n = cells.len() as int;
            assert(self.st@ =~= o.st@.subrange(0, o.s as int) + cells.push(mid.a) + o.st@.subrange(
                o.s + n + 1,
                o.st@.len() as int,
            ));
        }
    }

    /// The character that NextCh reads next: from the input when `C = 0`,
    /// else from `ST[C]`.
    pub(crate) open spec fn next_symbol(&self) -> Cell {
        if self.c == 0 {
            code(self.input@[self.ipos as int])
        } else {
            self.st@[self.c as int]
        }
    }

    /// What every action keeps: the invariant, the input read so far, the store's size.
    pub(crate) open spec fn keeps(&self, o: &Self, r: Pc) -> bool {
        &&& self.core_wf()
        &&& self.cc == o.cc
        &&& self.input == o.input
        &&& o.ipos <= self.ipos
        &&& self.st@.len() == o.st@.len()
        &&& (r == Pc::Q2 ==> self.q >= 2)
        &&& (r == Pc::NoInput ==> self.q == o.q)
    }

    /// `ST[i]`, where `i` is within the store.
    pub(crate) fn get(&self, i: i64) -> (r: Option<Cell>)
        requires
            self.core_wf(),
        ensures
            0 <= i < self.st@.len() ==> r == Some(self.st@[i as int]),
            !(0 <= i < self.st@.len()) ==> r is None,
    {
        if 0 <= i && i < self.st.len() as i64 {
            Some(self.st[i as usize])
        } else {
            None
        }
    }

    /// `ST[i] := v`, where `i` is within the store; false where it is not.
    pub(crate) fn put(&mut self, i: i64, v: Cell) -> (ok: bool)
        requires
            old(self).core_wf(),
        ensures
            ok == (0 <= i < old(self).st@.len()),
            ok ==> final(self).st@ == old(self).st@.update(i as int, v),
            !ok ==> final(self).st@ == old(self).st@,
            final(self).regs_same(old(self)),
            final(self).pc == old(self).pc,
            final(self).resume == old(self).resume,
            final(self).output == old(self).output,
            final(self).frame(old(self)),
    {
        if 0 <= i && i < self.st.len() as i64 {
            self.st.set(i as usize, v);
            true
        } else {
            false
        }
    }

    /// WriteSymbol: appends the character of `x` to the output.
    pub(crate) fn write_symbol(&mut self, x: Cell)
        requires
            old(self).core_wf(),
        ensures
            final(self).frame(old(self)),
            final(self).output@ == old(self).output@.push(symbol_of(x)),
            final(self).regs_same(old(self)),
            final(self).st == old(self).st,
            final(self).pc == old(self).pc,
            final(self).resume == old(self).resume,
    {
        let ch = symbol(x);
        self.output.push(ch);
    }

    /// ReadSymbol: the next character of the pending input, if any.
    pub(crate) fn read_symbol(&mut self) -> (r: Option<Cell>)
        ensures
            old(self).ipos < old(self).input@.len() ==> r == Some(
                code(old(self).input@[old(self).ipos as int]),
            ) && final(self).ipos == old(self).ipos + 1,
            old(self).ipos >= old(self).input@.len() ==> r is None && final(self).ipos
                == old(self).ipos,
            final(self).input == old(self).input,
            final(self).st == old(self).st,
            final(self).output == old(self).output,
            final(self).a == old(self).a,
            final(self).w == old(self).w,
            final(self).h == old(self).h,
            final(self).p == old(self).p,
            final(self).f == old(self).f,
            final(self).c == old(self).c,
            final(self).s == old(self).s,
            final(self).e == old(self).e,
            final(self).q == old(self).q,
            final(self).pc == old(self).pc,
            final(self).resume == old(self).resume,
            final(self).cc == old(self).cc,
    {
        if self.ipos < self.input.len() {
            let ch = self.input[self.ipos];
            self.ipos = self.ipos + 1;
            Some(ch as u32 as Cell)
        } else {
            None
        }
    }

    /// Load: appends `A` to the output when `H = 0`, else to the item on the
    /// stack. False where the stack is full.
    pub(crate) fn load(&mut self) -> (ok: bool)
        requires
            old(self).core_wf(),
        ensures
            final(self).frame(old(self)),
            old(self).h == 0 ==> ok && final(self).output@ == old(self).output@.push(
                symbol_of(old(self).a),
            ) && final(self).st == old(self).st && final(self).regs_same(old(self)),
            old(self).h != 0 ==> final(self).output == old(self).output,
            old(self).h != 0 ==> (ok <==> old(self).s < old(self).st@.len()),
            old(self).h != 0 && ok ==> final(self).st@ == old(self).st@.update(
                old(self).s as int,
                old(self).a,
            ) && final(self).s == old(self).s + 1,
            old(self).h != 0 && !ok ==> final(self).st@ == old(self).st@ && final(self).s
                == old(self).s,
            final(self).cc == old(self).cc,
            final(self).a == old(self).a,
            final(self).w == old(self).w,
            final(self).h == old(self).h,
            final(self).p == old(self).p,
            final(self).f == old(self).f,
            final(self).c == old(self).c,
            final(self).e == old(self).e,
            final(self).q == old(self).q,
            final(self).pc == old(self).pc,
            final(self).resume == old(self).resume,
            final(self).input == old(self).input,
            final(self).ipos == old(self).ipos,
            final(self).st@.len() == old(self).st@.len(),
    {
        if self.h == 0 {
            let a = self.a;
            self.write_symbol(a);
            true
        } else {
            let s = self.s;
            let a = self.a;
            if self.put(s as i64, a) {
                self.s = s + 1;
                true
            } else {
                false
            }
        }
    }

    /// NextCh: the next character into `A`, from the input when `C = 0`,
    /// else from `ST[C]`, advancing `C`.
    pub(crate) fn next_ch(&mut self) -> (r: Fetch)
        requires
            old(self).core_wf(),
        ensures
            final(self).core_wf(),
            old(self).c == 0 && old(self).ipos < old(self).input@.len() ==> r == Fetch::Got
                && final(self).a == code(old(self).input@[old(self).ipos as int])
                && final(self).ipos == old(self).ipos + 1 && final(self).c == 0,
            old(self).c == 0 && old(self).ipos >= old(self).input@.len() ==> r
                == Fetch::Starved && final(self).a == old(self).a && final(self).ipos
                == old(self).ipos && final(self).c == 0,
            old(self).c != 0 ==> final(self).ipos == old(self).ipos,
            old(self).c != 0 && 0 <= old(self).c < old(self).st@.len() ==> r == Fetch::Got
                && final(self).a == old(self).st@[old(self).c as int] && final(self).c
                == old(self).c + 1,
            old(self).c != 0 && !(0 <= old(self).c < old(self).st@.len()) ==> r
                == Fetch::Fault && final(self).a == old(self).a && final(self).c == old(self).c,
            final(self).input == old(self).input,
            final(self).st == old(self).st,
            final(self).output == old(self).output,
            final(self).cc == old(self).cc,
            final(self).w == old(self).w,
            final(self).h == old(self).h,
            final(self).p == old(self).p,
            final(self).f == old(self).f,
            final(self).s == old(self).s,
            final(self).e == old(self).e,
            final(self).q == old(self).q,
            final(self).pc == old(self).pc,
            final(self).resume == old(self).resume,
    {
        if self.c == 0 {
            match self.read_symbol() {
                Some(x) => {
                    self.a = x;
                    Fetch::Got
                },
                None => Fetch::Starved,
            }
        } else {
            match self.get(self.c as i64) {
                Some(x) => {
                    self.a = x;
                    self.c = self.c + 1;
                    Fetch::Got
                },
                None => Fetch::Fault,
            }
        }
    }

    /// Creates a machine with `mem_size` cells of store, the machine macros
    /// at its base, and nothing pending.
    pub fn new(control_chars: ControlChars, mem_size: usize) -> (r: Self)
        requires
            MST_LEN <= mem_size <= MAX_STORE,
        ensures
            r.wf(),
            r.at_top_level(),
            r.mem_size() == mem_size,
            r.control_chars() == control_chars,
            r.stack_top() == MST_LEN,
            r.quote_depth() == 1,
            r.store_prefix() == mst(),
            r.env() == 33,
            r.pending_output().len() == 0,
            r.frame_regs() == (0int, 0int, 0int, 0int),
            forall|k: int| MST_LEN <= k < mem_size ==> r.store()[k] == 0,
    {
        let mut vm = GpmVm {
            cc: control_chars,
            st: vec![0; mem_size],
            a: 0,
            w: 0,
            h: 0,
            p: 0,
            f: 0,
            c: 0,
            s: 39,
            e: 33,
            q: 1,
            pc: Pc::Finish,
            resume: Pc::Start,
            input: Vec::new(),
            ipos: 0,
            output: Vec::new(),
        };
        vm.init_mst();
        vm
    }

    /// The first cells of the store, where the machine macros' table lies.
    pub closed spec fn store_prefix(&self) -> Seq<Cell> {
        self.st@.subrange(0, MST_LEN as int)
    }

    /// Writes the machine macros' table into the base of the store and
    /// resets the registers.
    fn init_mst(&mut self)
        requires
            MST_LEN <= old(self).st@.len() <= MAX_STORE,
            old(self).ipos <= old(self).input@.len(),
        ensures
            final(self).core_wf(),
            final(self).st@.len() == old(self).st@.len(),
            final(self).st@.subrange(0, MST_LEN as int) == mst(),
            forall|k: int|
                MST_LEN <= k < old(self).st@.len() ==> final(self).st@[k] == old(self).st@[k],
            final(self).h == 0 && final(self).p == 0 && final(self).f == 0 && final(self).c == 0,
            final(self).s == MST_LEN && final(self).e == 33 && final(self).q == 1,
            final(self).cc == old(self).cc,
            final(self).pc == old(self).pc && final(self).resume == old(self).resume,
            final(self).input == old(self).input && final(self).ipos == old(self).ipos,
            final(self).output == old(self).output,
    {
        let table: [Cell; 39] = [
            -1, 4, 'D' as Cell, 'E' as Cell, 'F' as Cell, -1,
            0, 4, 'V' as Cell, 'A' as Cell, 'L' as Cell, -2,
            6, 7, 'U' as Cell, 'P' as Cell, 'D' as Cell, 'A' as Cell, 'T' as Cell, 'E' as Cell, -3,
            12, 4, 'B' as Cell, 'I' as Cell, 'N' as Cell, -4,
            21, 4, 'D' as Cell, 'E' as Cell, 'C' as Cell, -5,
            27, 4, 'B' as Cell, 'A' as Cell, 'R' as Cell, -6,
        ];
        assert(table@ =~= mst());
        let mut i: usize = 0;
        while i < MST_LEN
            invariant
                0 <= i <= MST_LEN,
                MST_LEN <= self.st@.len() <= MAX_STORE,
                self.st@.len() == old(self).st@.len(),
                self.cc == old(self).cc,
                self.pc == old(self).pc,
                self.resume == old(self).resume,
                self.input == old(self).input,
                self.ipos == old(self).ipos,
                self.ipos <= self.input@.len(),
                self.output == old(self).output,
                table@ == mst(),
                forall|k: int| 0 <= k < i ==> self.st@[k] == mst()[k],
                forall|k: int| MST_LEN <= k < self.st@.len() ==> self.st@[k] == old(self).st@[k],
            decreases MST_LEN - i,
        {
            self.st.set(i, table[i]);
            i = i + 1;
        }
        assert(self.st@.subrange(0, MST_LEN as int) =~= mst());
        self.h = 0;
        self.p = 0;
        self.f = 0;
        self.c = 0;
        self.s = 39;
        self.e = 33;
        self.q = 1;
    }

    /// What one step does: the invariant's frame, and the main cycle exactly.
    pub(crate) open spec fn step_post(&self, o: &Self) -> bool {
        &&& self.cc == o.cc
        &&& self.input == o.input
        &&& o.ipos <= self.ipos
        &&& self.st@.len() == o.st@.len()
        &&& self.pc == Pc::NoInput ==> self.resume == o.pc
        &&& o.pc == Pc::Start ==> self.start_post(o, self.pc)
        &&& o.pc == Pc::Copy ==> self.copy_post(o, self.pc)
        &&& o.pc == Pc::Q2 ==> self.q2_post(o, self.pc)
        &&& o.pc == Pc::Scan ==> {
            &&& self.regs_same(o)
            &&& self.st == o.st
            &&& self.output == o.output
            &&& self.pc == if o.q == 1 {
                Pc::Start
            } else {
                Pc::Q2
            }
        }
    }

    /// While `run` copies top-level text from quote depth `q0`: what has
    /// been read is written, and the depth counts the quotes read.
    spec fn text_inv(&self, chunk: Seq<char>, q0: int, idle_steps: u64) -> bool {
        let pre = chunk.subrange(0, self.ipos as int);
        &&& self.h == 0
        &&& self.c == 0
        &&& self.p == 0
        &&& self.input@ == chunk
        &&& idle_steps <= idle_bound(self.pc)
        &&& self.pc == Pc::Start || self.pc == Pc::Copy || self.pc == Pc::Scan || self.pc == Pc::Q2
            || self.pc == Pc::NoInput
        &&& self.q == q0 + depth(self.cc, pre)
        &&& self.pc != Pc::Copy ==> self.output@ == text_out(self.cc, q0, pre)
        &&& self.pc == Pc::Start ==> self.q == 1
        &&& self.pc == Pc::Q2 ==> self.q >= 2
        &&& self.pc == Pc::NoInput ==> {
            &&& self.ipos == chunk.len()
            &&& self.resume == Pc::Start && self.q == 1 || self.resume == Pc::Q2 && self.q >= 2
        }
        &&& self.pc == Pc::Copy ==> {
            &&& self.ipos >= 1
            &&& self.a == code(chunk[self.ipos - 1])
            &&& self.output@.push(chunk[self.ipos - 1]) == text_out(self.cc, q0, pre)
        }
    }

    /// One step keeps the top-level text invariant.
    proof fn lemma_text_step(&self, o: &Self, chunk: Seq<char>, q0: int, before: u64, after: u64)
        requires
            o.wf(),
            o.text_inv(chunk, q0, before),
            top_level_text(o.cc, q0, chunk),
            o.pc != Pc::NoInput,
            self.step_post(o),
            after == if self.ipos > o.ipos {
                0
            } else {
                before + 1
            },
        ensures
            self.text_inv(chunk, q0, after),
    {
        let cc = o.cc;
        let i = o.ipos as int;
        let pre = chunk.subrange(0, i);
        if (o.pc == Pc::Start || o.pc == Pc::Q2) && i < chunk.len() {
            let ch = chunk[i];
            let x = code(ch);
            lemma_text_push(cc, q0, chunk, i);
            lemma_code(ch);
            assert(self.ipos == i + 1);
            let post = chunk.subrange(0, i + 1);
            assert(o.q == q0 + depth(cc, pre));
            assert(self.q == q0 + depth(cc, post));
            assert(self.output == o.output);
            if o.pc == Pc::Start {
                assert(copied_at_top(cc, ch));
                if x == cc.open {
                    assert(self.pc == Pc::Q2);
                } else {
                    assert(self.pc == Pc::Copy);
                    assert(self.output@.push(ch) == text_out(cc, q0, post));
                }
            } else {
                assert(o.q < Cell::MAX);
                if x == cc.open {
                    assert(self.pc == Pc::Copy);
                    assert(self.output@.push(ch) == text_out(cc, q0, post));
                } else if x == cc.close {
                    if o.q == 2 {
                        assert(self.pc == Pc::Start);
                        assert(self.output@ == text_out(cc, q0, post));
                    } else {
                        assert(self.pc == Pc::Copy);
                        assert(self.output@.push(ch) == text_out(cc, q0, post));
                    }
                } else {
                    assert(self.pc == Pc::Copy);
                    assert(self.output@.push(ch) == text_out(cc, q0, post));
                }
            }
        }
        if (o.pc == Pc::Start || o.pc == Pc::Q2) && i >= chunk.len() {
            assert(self.pc == Pc::NoInput);
            assert(self.ipos == i);
        }
        if o.pc == Pc::Copy {
            lemma_symbol_of_code(chunk[i - 1]);
            assert(self.pc == Pc::Scan);
            assert(self.output@ == text_out(cc, q0, pre));
        }
        if o.pc == Pc::Scan {
            assert(self.output@ == text_out(cc, q0, pre));
        }
    }

    /// Runs the action of the current label and moves to the label it names.
    /// Where the action waits for input, the label is kept for resumption.
    fn step(&mut self)
        requires
            old(self).wf(),
            old(self).pc != Pc::Finish,
            old(self).pc != Pc::NoInput,
        ensures
            final(self).wf(),
            final(self).step_post(old(self)),
    {
        let cur = self.pc;
        let next = match cur {
            Pc::Start => self.op_start(),
            Pc::Copy => self.op_copy(),
            Pc::Scan => self.op_scan(),
            Pc::Q2 => self.op_q2(),
            Pc::Fn => self.op_fn(),
            Pc::NextItem => self.op_next_item(),
            Pc::Apply => self.op_apply(),
            Pc::LoadArg => self.op_load_arg(),
            Pc::EndFn => self.op_end_fn(),
            Pc::Exit => self.op_exit(),
            Pc::DEF => self.op_def(),
            Pc::VAL => self.op_val(),
            Pc::UPDATE => self.op_update(),
            Pc::BIN => self.op_bin(),
            Pc::DEC => self.op_dec(),
            Pc::BAR => self.op_bar(),
            Pc::Monitor(n) => self.monitor(n),
            Pc::Finish => Pc::Finish,
            Pc::NoInput => Pc::NoInput,
        };
        if next == Pc::NoInput {
            self.resume = cur;
        }
        self.pc = next;
    }

    /// Moves the input not yet read to the front of the buffer and appends `chunk`.
    fn take_input(&mut self, chunk: &str)
        requires
            old(self).wf(),
        ensures
            final(self).input@ == old(self).input@.subrange(
                old(self).ipos as int,
                old(self).input@.len() as int,
            ) + chunk@,
            final(self).ipos == 0,
            final(self).same_but_input(old(self)),
            final(self).wf(),
    {
        let mut pending: Vec<char> = Vec::new();
        let mut i: usize = self.ipos;
        while i < self.input.len()
            invariant
                self.ipos <= i <= self.input@.len(),
                pending@ == self.input@.subrange(self.ipos as int, i as int),
            decreases self.input@.len() - i,
        {
            pending.push(self.input[i]);
            i = i + 1;
            assert(pending@ =~= self.input@.subrange(self.ipos as int, i as int));
        }
        append_chars(&mut pending, chunk);
        self.input = pending;
        self.ipos = 0;
    }

    /// Steps the machine until it finishes, waits for input, or has taken
    /// `STEP_LIMIT` steps in a row without reading any.
    fn drive(&mut self, chunk: Ghost<Seq<char>>, q0: Ghost<int>, copying: Ghost<bool>)
        requires
            old(self).wf(),
            copying@ ==> top_level_text(old(self).cc, q0@, chunk@),
            copying@ ==> old(self).text_inv(chunk@, q0@, 0),
        ensures
            final(self).wf(),
            final(self).cc == old(self).cc,
            final(self).st@.len() == old(self).st@.len(),
            copying@ ==> final(self).pc == Pc::NoInput && final(self).text_inv(chunk@, q0@, 4),
            copying@ ==> final(self).st@ == old(self).st@ && final(self).s == old(self).s
                && final(self).e == old(self).e,
    {
        let ghost cc = self.cc;
        let mut idle_steps: u64 = 0;
        while self.pc != Pc::Finish && self.pc != Pc::NoInput && idle_steps < STEP_LIMIT
            invariant
                self.wf(),
                self.cc == cc,
                self.st@.len() == old(self).st@.len(),
                copying@ ==> top_level_text(cc, q0@, chunk@),
                copying@ ==> self.text_inv(chunk@, q0@, idle_steps),
                copying@ ==> self.st@ == old(self).st@ && self.s == old(self).s && self.e == old(
                    self,
                ).e,
            decreases self.input@.len() - self.ipos, STEP_LIMIT - idle_steps,
        {
            let before = self.ipos;
            let ghost prev = *self;
            self.step();
            let ghost idle_before = idle_steps;
            if self.ipos > before {
                idle_steps = 0;
            } else {
                idle_steps = idle_steps + 1;
            }
            proof {
                if copying@ {
                    self.lemma_text_step(&prev, chunk@, q0@, idle_before, idle_steps);
                }
            }
        }
    }

    /// Appends `chunk` to the pending input and runs the machine until it
    /// finishes or waits for more input; returns the output produced. A run
    /// that has taken `STEP_LIMIT` steps in a row without reading input also
    /// returns, and the next call goes on where it stopped.
    ///
    /// At the top level, text that calls no macro is written with the
    /// outermost quotes taken away; so text without warning characters comes
    /// out as it went in, and balanced text between an open and a close quote
    /// comes out without those quotes. The stack stays within the store and
    /// the quote depth positive.
    pub fn run(&mut self, chunk: &str) -> (r: String)
        requires
            old(self).wf(),
        ensures
            final(self).wf(),
            0 <= final(self).stack_top() <= final(self).mem_size(),
            final(self).quote_depth() >= 1,
            final(self).control_chars() == old(self).control_chars(),
            final(self).mem_size() == old(self).mem_size(),
            final(self).pending_output().len() == 0,
            old(self).at_top_level() && top_level_text(
                old(self).control_chars(),
                old(self).quote_depth(),
                chunk@,
            ) ==> {
                &&& r@ == text_out(old(self).control_chars(), old(self).quote_depth(), chunk@)
                &&& final(self).at_top_level()
                &&& final(self).quote_depth() == old(self).quote_depth() + depth(
                    old(self).control_chars(),
                    chunk@,
                )
                &&& final(self).store() == old(self).store()
                &&& final(self).stack_top() == old(self).stack_top()
                &&& final(self).env() == old(self).env()
            },
            old(self).at_top_level() && old(self).quote_depth() == 1 && plain_text(
                old(self).control_chars(),
                chunk@,
            ) ==> r@ == chunk@ && final(self).at_top_level() && final(self).quote_depth() == 1
                && final(self).store() == old(self).store() && final(self).stack_top() == old(
                self,
            ).stack_top() && final(self).env() == old(self).env(),
            old(self).at_top_level() && old(self).quote_depth() == 1 && quoted(
                old(self).control_chars(),
                chunk@,
            ) && chunk@.len() < Cell::MAX ==> r@ == chunk@.subrange(1, chunk@.len() - 1)
                && final(self).at_top_level() && final(self).quote_depth() == 1
                && final(self).store() == old(self).store() && final(self).stack_top() == old(
                self,
            ).stack_top() && final(self).env() == old(self).env(),
    {
        let ghost cc = self.cc;
        let ghost q0 = self.q as int;
        proof {
            if plain_text(cc, chunk@) {
                lemma_plain_text(cc, chunk@);
            }
            if quoted(cc, chunk@) && chunk@.len() < Cell::MAX {
                lemma_quoted_text(cc, chunk@);
            }
        }
        let ghost copying = self.at_top_level() && top_level_text(cc, q0, chunk@);
        self.take_input(chunk);
        if self.pc == Pc::Finish {
            self.pc = Pc::Start;
        } else if self.pc == Pc::NoInput {
            self.pc = self.resume;
        }
        proof {
            if copying {
                assert(self.input@ =~= chunk@);
                assert(self.output@ =~= text_out(cc, q0, chunk@.subrange(0, 0)));
            }
        }
        self.drive(Ghost(chunk@), Ghost(q0), Ghost(copying));
        proof {
            if copying {
                assert(chunk@.subrange(0, chunk@.len() as int) =~= chunk@);
            }
        }
        self.end()
    }

    /// Hands out the output still pending, leaving none.
    pub fn end(&mut self) -> (r: String)
        requires
            old(self).wf(),
        ensures
            r@ == old(self).pending_output(),
            final(self).pending_output().len() == 0,
            final(self).wf(),
            final(self).same_but_output(old(self)),
    {
        let mut out = String::new();
        let mut k: usize = 0;
        while k < self.output.len()
            invariant
                0 <= k <= self.output@.len(),
                out@ == self.output@.subrange(0, k as int),
            decreases self.output@.len() - k,
        {
            push_char(&mut out, self.output[k]);
            k = k + 1;
            assert(out@ =~= self.output@.subrange(0, k as int));
        }
        assert(out@ =~= self.output@);
        self.output = Vec::new();
        out
    }
}

} // verus!
