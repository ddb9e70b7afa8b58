//! Parsing of face statements from wavefront-style model text.
//!
//! A model file is a list of lines; a line `f 1//1 2//2 3//3` names the
//! vertices of one face by 1-based index. The parser splits the text into
//! lines and tokens, reads the index part of each token (the digits before
//! a `//` normal separator), and validates every face against the mesh's
//! vertex count, rejecting malformed ones as `DegenerateFace`.

use vstd::prelude::*;
use crate::geometry::{Face, GeometryError, face_valid, face_views};

verus! {

/// Line feed, space, horizontal tab, carriage return, the digit bounds,
/// and the bytes `f` and `/` of a face statement.
pub const LINE_FEED: u8 = 10;

pub const SPACE: u8 = 32;

pub const TAB: u8 = 9;

pub const CARRIAGE_RETURN: u8 = 13;

pub const DIGIT_ZERO: u8 = 48;

pub const DIGIT_NINE: u8 = 57;

pub const LOWER_F: u8 = 102;

pub const SLASH: u8 = 47;

/// Line separator.
pub open spec fn is_linebreak(c: u8) -> bool {
    c == LINE_FEED
}

/// Token separator inside a line. A carriage return counts as blank so
/// that lines of a file with `\r\n` endings parse the same way.
pub open spec fn is_space(c: u8) -> bool {
    c == SPACE || c == TAB || c == CARRIAGE_RETURN
}

/// ASCII decimal digit.
pub open spec fn is_digit(c: u8) -> bool {
    DIGIT_ZERO <= c <= DIGIT_NINE
}

/// Value of one digit; blank for other bytes, which `all_digits` rules out
/// wherever the value is relied on.
pub open spec fn digit_of(c: u8) -> nat {
    if is_digit(c) {
        (c - DIGIT_ZERO) as nat
    } else {
        0
    }
}

/// Splits `s` at each separator byte. A separator ends the current piece;
/// a trailing separator does not open an empty final piece, matching how
/// text splits into lines.
pub open spec fn split_by(s: Seq<u8>, is_sep: spec_fn(u8) -> bool) -> Seq<Seq<u8>>
    decreases s.len(),
{
    if s.len() == 0 {
        Seq::empty()
    } else {
        let rest = split_by(s.drop_first(), is_sep);
        if is_sep(s.first()) {
            seq![Seq::<u8>::empty()] + rest
        } else if rest.len() == 0 {
            seq![seq![s.first()]]
        } else {
            seq![seq![s.first()] + rest.first()] + rest.drop_first()
        }
    }
}

pub open spec fn linebreak_pred() -> spec_fn(u8) -> bool {
    |c: u8| is_linebreak(c)
}

pub open spec fn space_pred() -> spec_fn(u8) -> bool {
    |c: u8| is_space(c)
}

pub open spec fn nonempty_pred() -> spec_fn(Seq<u8>) -> bool {
    |t: Seq<u8>| t.len() > 0
}

/// The lines of a model file.
pub open spec fn lines_of(content: Seq<u8>) -> Seq<Seq<u8>> {
    split_by(content, linebreak_pred())
}

/// The blank-separated tokens of one line.
pub open spec fn tokens_of(line: Seq<u8>) -> Seq<Seq<u8>> {
    split_by(line, space_pred()).filter(nonempty_pred())
}

/// The views of a list of byte buffers.
pub open spec fn byte_views(vs: Seq<Vec<u8>>) -> Seq<Seq<u8>> {
    vs.map_values(|v: Vec<u8>| v@)
}

/// A split never yields nothing for non-empty input.
pub proof fn lemma_split_by_nonempty(s: Seq<u8>, is_sep: spec_fn(u8) -> bool)
    requires
        s.len() > 0,
    ensures
        split_by(s, is_sep).len() > 0,
{
}

/// How a split grows when one byte is appended: a separator after a
/// separator (or at the start) opens an empty piece, a separator after
/// other text only closes the current piece, and an ordinary byte either
/// opens a new piece or extends the last one.
pub proof fn lemma_split_by_push(s: Seq<u8>, c: u8, is_sep: spec_fn(u8) -> bool)
    ensures
        is_sep(c) && (s.len() == 0 || is_sep(s.last())) ==> split_by(s.push(c), is_sep)
            == split_by(s, is_sep).push(Seq::<u8>::empty()),
        is_sep(c) && s.len() > 0 && !is_sep(s.last()) ==> split_by(s.push(c), is_sep)
            == split_by(s, is_sep),
        !is_sep(c) && (s.len() == 0 || is_sep(s.last())) ==> split_by(s.push(c), is_sep)
            == split_by(s, is_sep).push(seq![c]),
        !is_sep(c) && s.len() > 0 && !is_sep(s.last()) ==> split_by(s.push(c), is_sep)
            == split_by(s, is_sep).drop_last().push(split_by(s, is_sep).last().push(c)),
    decreases s.len(),
{
    let sp = s.push(c);
    if s.len() == 0 {
        assert(sp.drop_first() =~= Seq::<u8>::empty());
        assert(sp.first() == c);
        assert(split_by(Seq::<u8>::empty(), is_sep) == Seq::<Seq<u8>>::empty());
        assert(split_by(sp.drop_first(), is_sep).len() == 0);
        if is_sep(c) {
            assert(split_by(sp, is_sep) == seq![Seq::<u8>::empty()] + split_by(
                sp.drop_first(), is_sep));
            assert(split_by(sp, is_sep) =~~= split_by(s, is_sep).push(Seq::<u8>::empty()));
        } else {
            assert(split_by(sp, is_sep) =~~= split_by(s, is_sep).push(seq![c]));
        }
    } else {
        let t = s.drop_first();
        let a = s.first();
        lemma_split_by_push(t, c, is_sep);
        assert(sp.first() == a);
        assert(sp.drop_first() =~= t.push(c));
        let r_old = split_by(t, is_sep);
        let r_new = split_by(t.push(c), is_sep);
        if t.len() > 0 {
            lemma_split_by_nonempty(t, is_sep);
            assert(s.last() == t.last());
        } else {
            assert(s.last() == a);
        }
        if is_sep(c) && (t.len() == 0 || is_sep(t.last())) {
            assert(r_new == r_old.push(Seq::<u8>::empty()));
            if t.len() == 0 {
                if is_sep(a) {
                    assert(split_by(sp, is_sep) =~~= split_by(s, is_sep).push(
                        Seq::<u8>::empty()));
                } else {
                    assert(split_by(sp, is_sep) =~~= split_by(s, is_sep));
                }
            } else {
                assert(split_by(sp, is_sep) =~~= split_by(s, is_sep).push(Seq::<u8>::empty()));
            }
        } else if is_sep(c) {
            assert(r_new == r_old);
            assert(split_by(sp, is_sep) =~~= split_by(s, is_sep));
        } else if t.len() == 0 || is_sep(t.last()) {
            assert(r_new == r_old.push(seq![c]));
            if t.len() == 0 {
                if is_sep(a) {
                    assert(split_by(sp, is_sep) =~~= split_by(s, is_sep).push(seq![c]));
                } else {
                    assert(split_by(sp, is_sep) =~~= split_by(s, is_sep).drop_last().push(
                        split_by(s, is_sep).last().push(c)));
                }
            } else {
                assert(split_by(sp, is_sep) =~~= split_by(s, is_sep).push(seq![c]));
            }
        } else {
            assert(r_new == r_old.drop_last().push(r_old.last().push(c)));
            if is_sep(a) {
                assert(split_by(sp, is_sep) =~~= split_by(s, is_sep).drop_last().push(
                    split_by(s, is_sep).last().push(c)));
            } else if r_old.len() == 1 {
                assert(split_by(sp, is_sep) =~~= split_by(s, is_sep).drop_last().push(
                    split_by(s, is_sep).last().push(c)));
            } else {
                assert(split_by(sp, is_sep) =~~= split_by(s, is_sep).drop_last().push(
                    split_by(s, is_sep).last().push(c)));
            }
        }
    }
}

/// Splits model text into its lines.
fn split_lines(content: &[u8]) -> (r: Vec<Vec<u8>>)
    ensures
        byte_views(r@) == lines_of(content@),
{
    let n: usize = content.len();
    let mut r: Vec<Vec<u8>> = Vec::new();
    let mut cur: Vec<u8> = Vec::new();
    let mut i: usize = 0;
    proof {
        assert(content@.take(0) =~= Seq::<u8>::empty());
        assert(byte_views(r@) =~= Seq::<Seq<u8>>::empty());
    }
    while i < n
        invariant
            n == content@.len(),
            0 <= i <= n,
            (i == 0 || is_linebreak(content@[i - 1])) ==> (byte_views(r@) == lines_of(
                content@.take(i as int)) && cur@.len() == 0),
            !(i == 0 || is_linebreak(content@[i - 1])) ==> (cur@.len() > 0 && byte_views(
                r@).push(cur@) == lines_of(content@.take(i as int))),
        decreases n - i,
    {
        let c: u8 = content[i];
        proof {
            lemma_split_by_push(content@.take(i as int), c, linebreak_pred());
            assert(content@.take(i as int).push(c) =~= content@.take(i + 1));
            if i > 0 {
                assert(content@.take(i as int).last() == content@[i - 1]);
            }
        }
        let ghost old_r = byte_views(r@);
        let ghost old_cur = cur@;
        if c == LINE_FEED {
            r.push(cur);
            cur = Vec::new();
            proof {
                assert(byte_views(r@) =~= old_r.push(old_cur));
                if i == 0 || is_linebreak(content@[i - 1]) {
                    assert(lines_of(content@.take(i + 1)) == lines_of(
                        content@.take(i as int)).push(Seq::<u8>::empty()));
                    assert(old_cur =~= Seq::<u8>::empty());
                    assert(byte_views(r@) == lines_of(content@.take(i + 1)));
                } else {
                    assert(lines_of(content@.take(i + 1)) == lines_of(content@.take(i as int)));
                    assert(byte_views(r@) == lines_of(content@.take(i + 1)));
                }
            }
        } else {
            cur.push(c);
            proof {
                if i == 0 || is_linebreak(content@[i - 1]) {
                    assert(lines_of(content@.take(i + 1)) == lines_of(
                        content@.take(i as int)).push(seq![c]));
                    assert(cur@ =~= seq![c]);
                    assert(byte_views(r@).push(cur@) == lines_of(content@.take(i + 1)));
                } else {
                    let l_old = lines_of(content@.take(i as int));
                    assert(lines_of(content@.take(i + 1)) == l_old.drop_last().push(
                        l_old.last().push(c)));
                    assert(l_old == old_r.push(old_cur));
                    assert(l_old.drop_last() =~= old_r);
                    assert(l_old.last() == old_cur);
                    assert(cur@ =~= old_cur.push(c));
                    assert(byte_views(r@).push(cur@) == lines_of(content@.take(i + 1)));
                }
            }
        }
        i += 1;
    }
    proof {
        assert(content@.take(n as int) =~= content@);
    }
    if cur.len() > 0 {
        let ghost before = byte_views(r@);
        let ghost last = cur@;
        r.push(cur);
        proof {
            assert(byte_views(r@) =~= before.push(last));
        }
    }
    r
}

/// Keeping the non-empty pieces of a list grown by one piece: an empty
/// piece changes nothing, a non-empty one is kept at the end.
proof fn lemma_filter_nonempty_push(xs: Seq<Seq<u8>>, y: Seq<u8>)
    ensures
        y.len() > 0 ==> xs.push(y).filter(nonempty_pred()) == xs.filter(nonempty_pred()).push(y),
        y.len() == 0 ==> xs.push(y).filter(nonempty_pred()) == xs.filter(nonempty_pred()),
{
    reveal(Seq::filter);
    assert(xs.push(y).drop_last() =~= xs);
    assert(xs.push(y).last() == y);
}

/// Splits one line into its blank-separated tokens.
fn split_tokens(line: &Vec<u8>) -> (r: Vec<Vec<u8>>)
    ensures
        byte_views(r@) == tokens_of(line@),
{
    let n: usize = line.len();
    let mut r: Vec<Vec<u8>> = Vec::new();
    let mut cur: Vec<u8> = Vec::new();
    let mut i: usize = 0;
    proof {
        assert(line@.take(0) =~= Seq::<u8>::empty());
        assert(byte_views(r@) =~= Seq::<Seq<u8>>::empty());
        reveal(Seq::filter);
        assert(Seq::<Seq<u8>>::empty().filter(nonempty_pred()) =~= Seq::<Seq<u8>>::empty());
    }
    while i < n
        invariant
            n == line@.len(),
            0 <= i <= n,
            (i == 0 || is_space(line@[i - 1])) ==> (byte_views(r@) == tokens_of(
                line@.take(i as int)) && cur@.len() == 0),
            !(i == 0 || is_space(line@[i - 1])) ==> (cur@.len() > 0 && byte_views(r@).push(cur@)
                == tokens_of(line@.take(i as int)) && split_by(line@.take(i as int),
                space_pred()).len() > 0 && split_by(line@.take(i as int), space_pred()).last()
                == cur@),
        decreases n - i,
    {
        let c: u8 = line[i];
        let ghost pref = line@.take(i as int);
        let ghost sb_old = split_by(pref, space_pred());
        proof {
            lemma_split_by_push(pref, c, space_pred());
            assert(pref.push(c) =~= line@.take(i + 1));
            if i > 0 {
                assert(pref.last() == line@[i - 1]);
            }
        }
        let ghost old_r = byte_views(r@);
        let ghost old_cur = cur@;
        if c == SPACE || c == TAB || c == CARRIAGE_RETURN {
            if cur.len() > 0 {
                r.push(cur);
                cur = Vec::new();
                proof {
                    assert(byte_views(r@) =~= old_r.push(old_cur));
                }
            }
            proof {
                if i == 0 || is_space(line@[i - 1]) {
                    // an empty piece is opened and filtered away again
                    assert(split_by(line@.take(i + 1), space_pred()) == sb_old.push(
                        Seq::<u8>::empty()));
                    lemma_filter_nonempty_push(sb_old, Seq::<u8>::empty());
                    assert(byte_views(r@) == tokens_of(line@.take(i + 1)));
                } else {
                    // the current token is closed; the split is unchanged
                    assert(split_by(line@.take(i + 1), space_pred()) == sb_old);
                    assert(byte_views(r@) == tokens_of(line@.take(i + 1)));
                }
            }
        } else {
            cur.push(c);
            proof {
                if i == 0 || is_space(line@[i - 1]) {
                    assert(split_by(line@.take(i + 1), space_pred()) == sb_old.push(seq![c]));
                    lemma_filter_nonempty_push(sb_old, seq![c]);
                    assert(cur@ =~= seq![c]);
                    assert(byte_views(r@).push(cur@) == tokens_of(line@.take(i + 1)));
                    assert(split_by(line@.take(i + 1), space_pred()).last() == cur@);
                } else {
                    let sb_new = split_by(line@.take(i + 1), space_pred());
                    assert(sb_new == sb_old.drop_last().push(sb_old.last().push(c)));
                    assert(sb_old.drop_last().push(sb_old.last()) =~= sb_old);
                    lemma_filter_nonempty_push(sb_old.drop_last(), sb_old.last());
                    lemma_filter_nonempty_push(sb_old.drop_last(), sb_old.last().push(c));
                    // tokens(pref) = filter(front).push(cur), so filter(front) == old_r
                    let front = sb_old.drop_last().filter(nonempty_pred());
                    assert(tokens_of(pref) == front.push(old_cur));
                    assert(front.push(old_cur).drop_last() =~= front);
                    assert(old_r.push(old_cur).drop_last() =~= old_r);
                    assert(front == old_r);
                    assert(cur@ =~= old_cur.push(c));
                    assert(byte_views(r@).push(cur@) == tokens_of(line@.take(i + 1)));
                    assert(sb_new.last() == cur@);
                }
            }
        }
        i += 1;
    }
    proof {
        assert(line@.take(n as int) =~= line@);
    }
    if cur.len() > 0 {
        let ghost before = byte_views(r@);
        let ghost last = cur@;
        r.push(cur);
        proof {
            assert(byte_views(r@) =~= before.push(last));
        }
    }
    r
}

/// Every byte of `s` is an ASCII decimal digit.
pub open spec fn all_digits(s: Seq<u8>) -> bool {
    forall|i: int| 0 <= i < s.len() ==> is_digit(#[trigger] s[i])
}

/// The decimal value of a digit string.
pub open spec fn digits_val(s: Seq<u8>) -> nat
    decreases s.len(),
{
    if s.len() == 0 {
        0
    } else {
        digits_val(s.drop_last()) * 10 + digit_of(s.last())
    }
}

/// The part of a face token before the `//` that separates a vertex index
/// from a normal index: the whole token when no `//` occurs in it.
pub open spec fn index_part(t: Seq<u8>) -> Seq<u8>
    decreases t.len(),
{
    if t.len() == 0 {
        Seq::empty()
    } else if t.len() >= 2 && t[0] == SLASH && t[1] == SLASH {
        Seq::empty()
    } else {
        seq![t[0]] + index_part(t.drop_first())
    }
}

/// What a digit string is worth as a vertex index: its decimal value, or
/// nothing when it is empty, holds a non-digit, or overflows `usize`.
pub open spec fn parse_index(t: Seq<u8>) -> Option<usize> {
    if t.len() > 0 && all_digits(t) && digits_val(t) <= usize::MAX as nat {
        Some(digits_val(t) as usize)
    } else {
        None
    }
}

/// The token holds the byte `f`, as the `f` keyword itself does; such a
/// token carries no vertex index and is passed over.
pub open spec fn contains_f(t: Seq<u8>) -> bool {
    exists|i: int| 0 <= i < t.len() && t[i] == LOWER_F
}

/// A line that declares a face: it starts with `f` and a blank.
pub open spec fn is_face_line(line: Seq<u8>) -> bool {
    line.len() >= 2 && line[0] == LOWER_F && line[1] == SPACE
}

/// A digit string is worth at least as much as any of its prefixes.
proof fn lemma_digits_val_prefix(s: Seq<u8>, m: int)
    requires
        0 <= m <= s.len(),
    ensures
        digits_val(s.take(m)) <= digits_val(s),
    decreases s.len() - m,
{
    if m < s.len() {
        assert(s.take(m + 1).drop_last() =~= s.take(m));
        assert(s.take(m + 1).last() == s[m]);
        assert(digits_val(s.take(m)) <= digits_val(s.take(m + 1)));
        lemma_digits_val_prefix(s, m + 1);
    } else {
        assert(s.take(m) =~= s);
    }
}

/// Reads the vertex index of one face token: the decimal digits before any
/// `//` separator.
fn parse_face_index(t: &Vec<u8>) -> (r: Option<usize>)
    ensures
        r == parse_index(index_part(t@)),
{
    let n: usize = t.len();
    let mut i: usize = 0;
    proof {
        assert(t@.take(0) =~= Seq::<u8>::empty());
        assert(t@.skip(0) =~= t@);
    }
    while i < n && !(t[i] == SLASH && i + 1 < n && t[i + 1] == SLASH)
        invariant
            n == t@.len(),
            0 <= i <= n,
            index_part(t@) == t@.take(i as int) + index_part(t@.skip(i as int)),
        decreases n - i,
    {
        proof {
            let rest = t@.skip(i as int);
            assert(rest.len() == n - i);
            assert(rest[0] == t@[i as int]);
            if rest.len() >= 2 {
                assert(rest[1] == t@[i as int + 1]);
            }
            assert(rest.drop_first() =~= t@.skip(i + 1));
            assert(index_part(rest) == seq![t@[i as int]] + index_part(t@.skip(i + 1)));
            assert(t@.take(i as int) + index_part(rest) =~= t@.take(i + 1) + index_part(
                t@.skip(i + 1)));
        }
        i += 1;
    }
    let end: usize = i;
    proof {
        if end == n {
            assert(t@.skip(n as int) =~= Seq::<u8>::empty());
            assert(index_part(t@.skip(n as int)) == Seq::<u8>::empty());
        } else {
            let rest = t@.skip(end as int);
            assert(rest[0] == t@[end as int] && rest[1] == t@[end as int + 1]);
            assert(index_part(rest) == Seq::<u8>::empty());
        }
        assert(index_part(t@) =~= t@.take(end as int));
    }
    if end == 0 {
        return None;
    }
    let mut val: usize = 0;
    let mut j: usize = 0;
    while j < end
        invariant
            end <= n,
            n == t@.len(),
            end > 0,
            index_part(t@) == t@.take(end as int),
            0 <= j <= end,
            all_digits(t@.take(j as int)),
            val == digits_val(t@.take(j as int)),
        decreases end - j,
    {
        let c: u8 = t[j];
        proof {
            assert(t@.take(j + 1).drop_last() =~= t@.take(j as int));
            assert(t@.take(j + 1).last() == t@[j as int]);
            assert(t@.take(end as int).take(j + 1) =~= t@.take(j + 1));
        }
        if c < DIGIT_ZERO || c > DIGIT_NINE {
            proof {
                assert(index_part(t@)[j as int] == t@[j as int]);
                assert(!all_digits(index_part(t@)));
            }
            return None;
        }
        let d: usize = (c - DIGIT_ZERO) as usize;
        if val > (usize::MAX - d) / 10 {
            proof {
                assert(digits_val(t@.take(j + 1)) == val * 10 + d);
                assert(val * 10 + d > usize::MAX) by {
                    assert(val >= (usize::MAX - d) / 10 + 1);
                    assert(((usize::MAX - d) / 10 + 1) * 10 > usize::MAX - d) by (nonlinear_arith);
                    assert(val * 10 >= ((usize::MAX - d) / 10 + 1) * 10) by (nonlinear_arith)
                        requires
                            val >= (usize::MAX - d) / 10 + 1,
                    ;
                }
                lemma_digits_val_prefix(t@.take(end as int), j + 1);
                assert(digits_val(index_part(t@)) > usize::MAX);
            }
            return None;
        }
        proof {
            assert(val * 10 + d <= usize::MAX) by {
                assert(val <= (usize::MAX - d) / 10);
                assert(((usize::MAX - d) / 10) * 10 <= usize::MAX - d) by (nonlinear_arith);
                assert(val * 10 <= ((usize::MAX - d) / 10) * 10) by (nonlinear_arith)
                    requires
                        val <= (usize::MAX - d) / 10,
                ;
            }
        }
        val = val * 10 + d;
        j += 1;
    }
    proof {
        assert(t@.take(end as int) == index_part(t@));
        assert(parse_index(index_part(t@)) == Some(val));
    }
    Some(val)
}

/// True when the token holds the byte `f`.
fn token_contains_f(t: &Vec<u8>) -> (r: bool)
    ensures
        r == contains_f(t@),
{
    let n: usize = t.len();
    let mut i: usize = 0;
    while i < n
        invariant
            n == t@.len(),
            0 <= i <= n,
            forall|m: int| 0 <= m < i ==> t@[m] != LOWER_F,
        decreases n - i,
    {
        if t[i] == LOWER_F {
            return true;
        }
        i += 1;
    }
    false
}

/// The vertex indices a list of face tokens yields, left to right: a token
/// holding `f` is passed over, and every other token must carry a readable
/// index, else the whole face is unreadable.
pub open spec fn parse_face_tokens(ts: Seq<Seq<u8>>) -> Option<Seq<usize>>
    decreases ts.len(),
{
    if ts.len() == 0 {
        Some(Seq::empty())
    } else {
        match parse_face_tokens(ts.drop_last()) {
            Option::None => Option::None,
            Option::Some(pre) => {
                if contains_f(ts.last()) {
                    Some(pre)
                } else {
                    match parse_index(index_part(ts.last())) {
                        Option::None => Option::None,
                        Option::Some(v) => Some(pre.push(v)),
                    }
                }
            },
        }
    }
}

/// The vertex indices one face line names, or nothing when the line cannot
/// be read.
pub open spec fn parse_face_line(line: Seq<u8>) -> Option<Seq<usize>> {
    parse_face_tokens(tokens_of(line))
}

/// The faces a list of lines yields, in order. Lines that declare no face
/// are passed over; a face line that cannot be read, or whose face is not
/// well formed for `vert_count` vertices, stops the parse with
/// `DegenerateFace`.
pub open spec fn parse_lines(ls: Seq<Seq<u8>>, vert_count: usize) -> Result<
    Seq<Seq<usize>>,
    GeometryError,
>
    decreases ls.len(),
{
    if ls.len() == 0 {
        Ok(Seq::empty())
    } else {
        match parse_lines(ls.drop_last(), vert_count) {
            Result::Err(e) => Result::Err(e),
            Result::Ok(pre) => {
                if !is_face_line(ls.last()) {
                    Ok(pre)
                } else {
                    match parse_face_line(ls.last()) {
                        Option::None => Result::Err(GeometryError::DegenerateFace),
                        Option::Some(idxs) => {
                            if face_valid(idxs, vert_count) {
                                Ok(pre.push(idxs))
                            } else {
                                Result::Err(GeometryError::DegenerateFace)
                            }
                        },
                    }
                }
            },
        }
    }
}

/// The faces of a whole model file, for a mesh of `vert_count` vertices.
pub open spec fn spec_load_faces(content: Seq<u8>, vert_count: usize) -> Result<
    Seq<Seq<usize>>,
    GeometryError,
> {
    parse_lines(lines_of(content), vert_count)
}

/// Once some prefix of the tokens is unreadable, the whole list is.
proof fn lemma_parse_face_tokens_none(ts: Seq<Seq<u8>>, m: int)
    requires
        0 <= m <= ts.len(),
        parse_face_tokens(ts.take(m)) is None,
    ensures
        parse_face_tokens(ts) is None,
    decreases ts.len() - m,
{
    if m < ts.len() {
        assert(ts.take(m + 1).drop_last() =~= ts.take(m));
        assert(parse_face_tokens(ts.take(m + 1)) is None);
        lemma_parse_face_tokens_none(ts, m + 1);
    } else {
        assert(ts.take(m) =~= ts);
    }
}

/// Once some prefix of the lines fails, the whole list fails the same way.
proof fn lemma_parse_lines_from(ls: Seq<Seq<u8>>, vert_count: usize, m: int)
    requires
        0 <= m <= ls.len(),
        parse_lines(ls.take(m), vert_count) is Err,
    ensures
        parse_lines(ls, vert_count) == parse_lines(ls.take(m), vert_count),
    decreases ls.len() - m,
{
    if m < ls.len() {
        assert(ls.take(m + 1).drop_last() =~= ls.take(m));
        assert(parse_lines(ls.take(m + 1), vert_count) == parse_lines(ls.take(m), vert_count));
        lemma_parse_lines_from(ls, vert_count, m + 1);
    } else {
        assert(ls.take(m) =~= ls);
    }
}

/// Reads the vertex indices from one face line's tokens.
fn parse_tokens_exec(ts: &Vec<Vec<u8>>) -> (r: Option<Vec<usize>>)
    ensures
        r is Some ==> parse_face_tokens(byte_views(ts@)) == Some(r.unwrap()@),
        r is None ==> parse_face_tokens(byte_views(ts@)) is None,
{
    let n: usize = ts.len();
    let mut out: Vec<usize> = Vec::new();
    let mut i: usize = 0;
    proof {
        assert(byte_views(ts@).take(0) =~= Seq::<Seq<u8>>::empty());
        assert(out@ =~= Seq::<usize>::empty());
    }
    while i < n
        invariant
            n == ts@.len(),
            0 <= i <= n,
            parse_face_tokens(byte_views(ts@).take(i as int)) == Some(out@),
        decreases n - i,
    {
        let t: &Vec<u8> = &ts[i];
        proof {
            assert(byte_views(ts@).take(i + 1).drop_last() =~= byte_views(ts@).take(i as int));
            assert(byte_views(ts@)[i as int] == ts@[i as int]@);
            assert(byte_views(ts@).take(i + 1).last() == t@);
        }
        if token_contains_f(t) {
            proof {
                assert(parse_face_tokens(byte_views(ts@).take(i + 1)) == Some(out@));
            }
        } else {
            match parse_face_index(t) {
                Option::Some(v) => {
                    let ghost before = out@;
                    out.push(v);
                    proof {
                        assert(out@ =~= before.push(v));
                        assert(parse_face_tokens(byte_views(ts@).take(i + 1)) == Some(out@));
                    }
                },
                Option::None => {
                    proof {
                        assert(parse_face_tokens(byte_views(ts@).take(i + 1)) is None);
                        lemma_parse_face_tokens_none(byte_views(ts@), i + 1);
                    }
                    return None;
                },
            }
        }
        i += 1;
    }
    proof {
        assert(byte_views(ts@).take(n as int) =~= byte_views(ts@));
    }
    Some(out)
}

/// Reads every face statement of a model file and validates it against a
/// mesh of `vert_count` vertices.
///
/// The faces come back in file order, each holding exactly the indices its
/// line names. A face line that cannot be read, a face with fewer than
/// three distinct indices, or one with an index naming no vertex stops the
/// load with `DegenerateFace`, so that no malformed face ever reaches the
/// projection pipeline.
pub fn load_model_faces(content: &[u8], vert_count: usize) -> (r: Result<Vec<Face>, GeometryError>)
    ensures
        r is Ok ==> spec_load_faces(content@, vert_count) == Ok::<Seq<Seq<usize>>, GeometryError>(
            face_views(r->Ok_0@),
        ),
        r is Ok ==> forall|i: int|
            0 <= i < r->Ok_0@.len() ==> face_valid(#[trigger] r->Ok_0@[i]@, vert_count),
        r is Err ==> spec_load_faces(content@, vert_count) == Err::<
            Seq<Seq<usize>>,
            GeometryError,
        >(r->Err_0),
{
    let lines = split_lines(content);
    let ghost ls = byte_views(lines@);
    let mut faces: Vec<Face> = Vec::new();
    let mut li: usize = 0;
    proof {
        assert(ls.take(0) =~= Seq::<Seq<u8>>::empty());
        assert(face_views(faces@) =~= Seq::<Seq<usize>>::empty());
    }
    while li < lines.len()
        invariant
            ls == byte_views(lines@),
            ls == lines_of(content@),
            0 <= li <= lines@.len(),
            parse_lines(ls.take(li as int), vert_count) == Ok::<Seq<Seq<usize>>, GeometryError>(
                face_views(faces@),
            ),
            forall|m: int| 0 <= m < faces@.len() ==> face_valid(#[trigger] faces@[m]@, vert_count),
        decreases lines@.len() - li,
    {
        let line: &Vec<u8> = &lines[li];
        proof {
            assert(ls.take(li + 1).drop_last() =~= ls.take(li as int));
            assert(ls[li as int] == lines@[li as int]@);
            assert(ls.take(li + 1).last() == line@);
        }
        let is_face: bool = line.len() >= 2 && line[0] == LOWER_F && line[1] == SPACE;
        if is_face {
            let toks = split_tokens(line);
            match parse_tokens_exec(&toks) {
                Option::Some(idxs) => {
                    let face = Face { vert_indices: idxs };
                    let ghost fv = face@;
                    match face.validate(vert_count) {
                        Result::Ok(_) => {
                            let ghost before = face_views(faces@);
                            proof {
                                assert(parse_face_line(line@) == Some(fv));
                                assert(parse_lines(ls.take(li + 1), vert_count) == Ok::<
                                    Seq<Seq<usize>>,
                                    GeometryError,
                                >(before.push(fv)));
                            }
                            faces.push(face);
                            proof {
                                assert(face_views(faces@) =~= before.push(fv));
                            }
                        },
                        Result::Err(_) => {
                            proof {
                                assert(parse_face_line(line@) == Some(fv));
                                assert(!face_valid(fv, vert_count));
                                assert(parse_lines(ls.take(li + 1), vert_count) == Err::<
                                    Seq<Seq<usize>>,
                                    GeometryError,
                                >(GeometryError::DegenerateFace));
                                lemma_parse_lines_from(ls, vert_count, li + 1);
                            }
                            return Err(GeometryError::DegenerateFace);
                        },
                    }
                },
                Option::None => {
                    proof {
                        assert(parse_face_line(line@) is None);
                        assert(parse_lines(ls.take(li + 1), vert_count) == Err::<
                            Seq<Seq<usize>>,
                            GeometryError,
                        >(GeometryError::DegenerateFace));
                        lemma_parse_lines_from(ls, vert_count, li + 1);
                    }
                    return Err(GeometryError::DegenerateFace);
                },
            }
        } else {
            proof {
                assert(!is_face_line(line@));
                assert(parse_lines(ls.take(li + 1), vert_count) == Ok::<
                    Seq<Seq<usize>>,
                    GeometryError,
                >(face_views(faces@)));
            }
        }
        li += 1;
    }
    proof {
        assert(ls.take(lines@.len() as int) =~= ls);
    }
    Ok(faces)
}

} // verus!
