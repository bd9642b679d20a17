//! What the machine does with text at the top level, where it calls no
//! macro: quotes are stripped one level deep and everything else is copied.
use vstd::prelude::*;
use crate::control_chars::{Cell, ControlChars};

verus! {

/// The cell that holds a character.
pub open spec fn code(ch: char) -> Cell {
    ch as u32 as Cell
}

/// Is `x` one of the six warning characters?
pub open spec fn is_warning(cc: ControlChars, x: Cell) -> bool {
    x == cc.open || x == cc.close || x == cc.def || x == cc.arg_sep || x == cc.apply
        || x == cc.load_arg
}

/// Text in which no character is a warning character.
pub open spec fn plain_text(cc: ControlChars, t: Seq<char>) -> bool {
    forall|i: int| 0 <= i < t.len() ==> !is_warning(cc, #[trigger] code(t[i]))
}

/// How far a character moves the quote depth.
pub open spec fn delta(cc: ControlChars, ch: char) -> int {
    if code(ch) == cc.open {
        1
    } else if code(ch) == cc.close {
        -1
    } else {
        0
    }
}

/// Quote depth reached after reading `t`: one up for each open, one down for each close.
pub open spec fn depth(cc: ControlChars, t: Seq<char>) -> int
    decreases t.len(),
{
    if t.len() == 0 {
        0
    } else {
        depth(cc, t.drop_last()) + delta(cc, t.last())
    }
}

/// No prefix of `t` closes more quotes than it opens.
pub open spec fn never_below(cc: ControlChars, t: Seq<char>) -> bool {
    forall|k: int| 0 <= k <= t.len() ==> depth(cc, #[trigger] t.subrange(0, k)) >= 0
}

/// Quotes in `t` are balanced: no prefix closes more than it opens, and the whole closes all.
pub open spec fn balanced(cc: ControlChars, t: Seq<char>) -> bool {
    never_below(cc, t) && depth(cc, t) == 0
}

/// `s` is an open quote, balanced text, and a close quote.
pub open spec fn quoted(cc: ControlChars, s: Seq<char>) -> bool {
    &&& cc.open != cc.close
    &&& s.len() >= 2
    &&& code(s[0]) == cc.open
    &&& code(s.last()) == cc.close
    &&& balanced(cc, s.subrange(1, s.len() - 1))
}

/// What reading `ch` at quote depth `q` writes: the outermost quotes are
/// dropped, everything else is copied.
pub open spec fn emitted(cc: ControlChars, q: int, ch: char) -> Seq<char> {
    if q == 1 && code(ch) == cc.open {
        Seq::empty()
    } else if q == 2 && code(ch) == cc.close && code(ch) != cc.open {
        Seq::empty()
    } else {
        seq![ch]
    }
}

/// What reading `t` from quote depth `q` writes.
pub open spec fn text_out(cc: ControlChars, q: int, t: Seq<char>) -> Seq<char>
    decreases t.len(),
{
    if t.len() == 0 {
        Seq::empty()
    } else {
        text_out(cc, q, t.drop_last()) + emitted(cc, q + depth(cc, t.drop_last()), t.last())
    }
}

/// A character that the machine copies, or takes as an open quote, outside
/// quotes: no macro call and no close quote.
pub open spec fn copied_at_top(cc: ControlChars, ch: char) -> bool {
    code(ch) == cc.open || (code(ch) != cc.def && code(ch) != cc.close)
}

/// Text that the machine copies from quote depth `q` without calling a
/// macro or ending the run: outside quotes there is no macro call and no
/// close quote, and the depth stays below the largest cell.
pub open spec fn top_level_text(cc: ControlChars, q: int, t: Seq<char>) -> bool {
    &&& forall|k: int|
        0 <= k < t.len() && q + depth(cc, #[trigger] t.subrange(0, k)) == 1 ==> copied_at_top(
            cc,
            t[k],
        )
    &&& forall|k: int| 0 <= k <= t.len() ==> q + depth(cc, #[trigger] t.subrange(0, k)) < Cell::MAX
}

/// Reading one more character moves the depth by that character's delta,
/// and writes what that character writes.
pub proof fn lemma_text_push(cc: ControlChars, q: int, s: Seq<char>, k: int)
    requires
        0 <= k < s.len(),
    ensures
        depth(cc, s.subrange(0, k + 1)) == depth(cc, s.subrange(0, k)) + delta(cc, s[k]),
        text_out(cc, q, s.subrange(0, k + 1)) == text_out(cc, q, s.subrange(0, k)) + emitted(
            cc,
            q + depth(cc, s.subrange(0, k)),
            s[k],
        ),
{
    assert(s.subrange(0, k + 1).drop_last() =~= s.subrange(0, k));
}

/// The depth never exceeds the length.
pub proof fn lemma_depth_bound(cc: ControlChars, s: Seq<char>)
    ensures
        depth(cc, s) <= s.len(),
    decreases s.len(),
{
    if s.len() > 0 {
        lemma_depth_bound(cc, s.drop_last());
    }
}

/// Depth and output of two pieces of text read one after the other.
proof fn lemma_concat_out(cc: ControlChars, q: int, a: Seq<char>, b: Seq<char>)
    ensures
        depth(cc, a + b) == depth(cc, a) + depth(cc, b),
        text_out(cc, q, a + b) == text_out(cc, q, a) + text_out(cc, q + depth(cc, a), b),
    decreases b.len(),
{
    if b.len() == 0 {
        assert(a + b =~= a);
        assert(text_out(cc, q, a) + Seq::<char>::empty() =~= text_out(cc, q, a));
    } else {
        lemma_concat_out(cc, q, a, b.drop_last());
        assert((a + b).drop_last() =~= a + b.drop_last());
        assert((a + b).last() == b.last());
        assert(text_out(cc, q, a + b) =~= text_out(cc, q, a) + text_out(cc, q + depth(cc, a), b));
    }
}

/// Feeding text in two chunks writes what feeding it at once writes: the
/// whole is top-level text exactly when the first chunk is, and the second
/// is from the depth where the first leaves off; the output of the whole is
/// the output of the first followed by that of the second.
pub proof fn lemma_chunks(cc: ControlChars, q: int, a: Seq<char>, b: Seq<char>)
    ensures
        depth(cc, a + b) == depth(cc, a) + depth(cc, b),
        text_out(cc, q, a + b) == text_out(cc, q, a) + text_out(cc, q + depth(cc, a), b),
        top_level_text(cc, q, a + b) == (top_level_text(cc, q, a) && top_level_text(
            cc,
            q + depth(cc, a),
            b,
        )),
{
    lemma_concat_out(cc, q, a, b);
    let d = q + depth(cc, a);
    assert forall|k: int| 0 <= k <= a.len() implies (a + b).subrange(0, k) == a.subrange(0, k) by {
        assert((a + b).subrange(0, k) =~= a.subrange(0, k));
    }
    assert forall|k: int| 0 <= k <= b.len() implies depth(cc, (a + b).subrange(0, a.len() + k))
        == depth(cc, a) + depth(cc, #[trigger] b.subrange(0, k)) by {
        assert((a + b).subrange(0, a.len() + k) =~= a + b.subrange(0, k));
        lemma_concat_out(cc, q, a, b.subrange(0, k));
    }
    assert(a.subrange(0, a.len() as int) =~= a);
    if top_level_text(cc, q, a + b) {
        assert forall|k: int|
            0 <= k < a.len() && q + depth(cc, #[trigger] a.subrange(0, k)) == 1 implies copied_at_top(cc, a[k]) by {
            assert((a + b).subrange(0, k) == a.subrange(0, k));
            assert((a + b)[k] == a[k]);
        }
        assert forall|k: int| 0 <= k <= a.len() implies q + depth(
            cc,
            #[trigger] a.subrange(0, k),
        ) < Cell::MAX by {
            assert((a + b).subrange(0, k) == a.subrange(0, k));
        }
        assert forall|k: int|
            0 <= k < b.len() && d + depth(cc, #[trigger] b.subrange(0, k)) == 1 implies copied_at_top(cc, b[k]) by {
            assert(depth(cc, (a + b).subrange(0, a.len() + k)) == depth(cc, a) + depth(
                cc,
                b.subrange(0, k),
            ));
            assert((a + b)[a.len() + k] == b[k]);
        }
        assert forall|k: int| 0 <= k <= b.len() implies d + depth(
            cc,
            #[trigger] b.subrange(0, k),
        ) < Cell::MAX by {
            assert(depth(cc, (a + b).subrange(0, a.len() + k)) == depth(cc, a) + depth(
                cc,
                b.subrange(0, k),
            ));
        }
    }
    if top_level_text(cc, q, a) && top_level_text(cc, d, b) {
        assert forall|k: int|
            0 <= k < (a + b).len() && q + depth(cc, #[trigger] (a + b).subrange(0, k)) == 1 implies copied_at_top(cc, (a + b)[k]) by {
            if k < a.len() {
                assert((a + b).subrange(0, k) == a.subrange(0, k));
            } else {
                let j = k - a.len();
                assert(depth(cc, (a + b).subrange(0, a.len() + j)) == depth(cc, a) + depth(
                    cc,
                    b.subrange(0, j),
                ));
            }
        }
        assert forall|k: int| 0 <= k <= (a + b).len() implies q + depth(
            cc,
            #[trigger] (a + b).subrange(0, k),
        ) < Cell::MAX by {
            if k <= a.len() {
                assert((a + b).subrange(0, k) == a.subrange(0, k));
            } else {
                let j = k - a.len();
                assert(depth(cc, (a + b).subrange(0, a.len() + j)) == depth(cc, a) + depth(
                    cc,
                    b.subrange(0, j),
                ));
            }
        }
    }
}

/// Text without warning characters is top-level text, leaves the depth
/// alone, and is written as it is.
pub proof fn lemma_plain_text(cc: ControlChars, t: Seq<char>)
    requires
        plain_text(cc, t),
    ensures
        depth(cc, t) == 0,
        text_out(cc, 1, t) == t,
        top_level_text(cc, 1, t),
    decreases t.len(),
{
    if t.len() > 0 {
        let d = t.drop_last();
        assert(plain_text(cc, d)) by {
            assert forall|i: int| 0 <= i < d.len() implies !is_warning(cc, #[trigger] code(d[i])) by {
                assert(d[i] == t[i]);
            }
        }
        lemma_plain_text(cc, d);
        assert(!is_warning(cc, code(t[t.len() - 1])));
        assert(text_out(cc, 1, t) =~= t);
    }
    assert forall|k: int| 0 <= k <= t.len() implies depth(cc, #[trigger] t.subrange(0, k)) == 0 by {
        let s = t.subrange(0, k);
        assert(plain_text(cc, s)) by {
            assert forall|i: int| 0 <= i < s.len() implies !is_warning(cc, #[trigger] code(s[i])) by {
                assert(s[i] == t[i]);
            }
        }
        if k < t.len() {
            lemma_plain_text(cc, s);
        } else {
            assert(s =~= t);
        }
    }
}

/// Text whose prefixes never close more than they open, read inside one
/// quote, is written as it is and stays inside the quote.
proof fn lemma_inside_quote(cc: ControlChars, t: Seq<char>)
    requires
        never_below(cc, t),
    ensures
        text_out(cc, 2, t) == t,
    decreases t.len(),
{
    if t.len() > 0 {
        let d = t.drop_last();
        assert(never_below(cc, d)) by {
            assert forall|k: int| 0 <= k <= d.len() implies depth(cc, #[trigger] d.subrange(0, k))
                >= 0 by {
                assert(d.subrange(0, k) =~= t.subrange(0, k));
            }
        }
        lemma_inside_quote(cc, d);
        assert(t.subrange(0, t.len() as int) =~= t);
        assert(d.subrange(0, d.len() as int) =~= d);
        assert(t.subrange(0, d.len() as int) =~= d);
        assert(text_out(cc, 2, t) =~= t);
    }
}

/// Balanced text between an open and a close quote is top-level text, leaves
/// the depth alone, and is written without the two quotes.
pub proof fn lemma_quoted_text(cc: ControlChars, s: Seq<char>)
    requires
        quoted(cc, s),
        s.len() < Cell::MAX,
    ensures
        depth(cc, s) == 0,
        text_out(cc, 1, s) == s.subrange(1, s.len() - 1),
        top_level_text(cc, 1, s),
{
    let n = s.len() as int;
    let open = s.subrange(0, 1);
    let t = s.subrange(1, n - 1);
    let close = s.subrange(n - 1, n);
    assert(s =~= open + t + close);
    assert(open.drop_last() =~= Seq::<char>::empty());
    assert(close.drop_last() =~= Seq::<char>::empty());
    assert(open.last() == s[0]);
    assert(depth(cc, open.drop_last()) == 0);
    assert(text_out(cc, 1, open.drop_last()) =~= Seq::<char>::empty());
    assert(text_out(cc, 1, open) =~= Seq::<char>::empty());
    lemma_inside_quote(cc, t);
    assert(t.subrange(0, t.len() as int) =~= t);
    assert(close.last() == s.last());
    assert(depth(cc, close.drop_last()) == 0);
    assert(text_out(cc, 2, close.drop_last()) =~= Seq::<char>::empty());
    assert(text_out(cc, 2, close) =~= Seq::<char>::empty());
    assert(top_level_text(cc, 1, open)) by {
        assert(open.subrange(0, 0) =~= Seq::<char>::empty());
        assert(open.subrange(0, 1) =~= open);
    }
    assert(top_level_text(cc, 2, t)) by {
        assert forall|k: int| 0 <= k <= t.len() implies 2 + depth(cc, #[trigger] t.subrange(0, k))
            < Cell::MAX by {
            lemma_depth_bound(cc, t.subrange(0, k));
        }
    }
    assert(top_level_text(cc, 2, close)) by {
        assert(close.subrange(0, 0) =~= Seq::<char>::empty());
        assert(close.subrange(0, 1) =~= close);
    }
    lemma_chunks(cc, 1, open, t);
    lemma_chunks(cc, 1, open + t, close);
    assert(text_out(cc, 1, s) =~= t);
}

} // verus!
