//! Verified text splitting and token reading for the puzzle loader.
//!
//! `split_on` models splitting a character sequence at a separator, exactly
//! as the executable `split_at_char` does it; `line_split` models the usual
//! line reading (split at newline, drop a final empty piece, strip one
//! trailing carriage return); the `token_*` functions model how a
//! comma-separated token is read as a decimal number.

use vstd::prelude::*;

verus! {

/// No character of `s` equals `sep`.
pub open spec fn sep_free(s: Seq<char>, sep: char) -> bool {
    forall|i: int| 0 <= i < s.len() ==> s[i] != sep
}

/// Split `s` at every occurrence of `sep`. Splitting the empty sequence
/// gives one empty piece, as `str::split` does.
pub open spec fn split_on(s: Seq<char>, sep: char) -> Seq<Seq<char>>
    decreases s.len(),
{
    if s.len() == 0 {
        seq![Seq::<char>::empty()]
    } else if s[0] == sep {
        seq![Seq::<char>::empty()] + split_on(s.drop_first(), sep)
    } else {
        let rest = split_on(s.drop_first(), sep);
        rest.update(0, seq![s[0]] + rest[0])
    }
}

/// A split always has at least one piece.
pub proof fn lemma_split_on_len(s: Seq<char>, sep: char)
    ensures
        split_on(s, sep).len() >= 1,
    decreases s.len(),
{
    if s.len() != 0 {
        lemma_split_on_len(s.drop_first(), sep);
    }
}

/// Splitting a separator-free sequence gives that one piece.
pub proof fn lemma_split_sep_free(a: Seq<char>, sep: char)
    requires
        sep_free(a, sep),
    ensures
        split_on(a, sep) == seq![a],
    decreases a.len(),
{
    if a.len() == 0 {
        assert(a =~= Seq::<char>::empty());
    } else {
        lemma_split_sep_free(a.drop_first(), sep);
        let rest = split_on(a.drop_first(), sep);
        assert(seq![a[0]] + a.drop_first() =~= a);
        assert(rest.update(0, a) =~= seq![a]);
    }
}

/// Splitting `a + sep + b`, with `a` separator-free, gives `a` and then the
/// split of `b`.
pub proof fn lemma_split_sep_at(a: Seq<char>, b: Seq<char>, sep: char)
    requires
        sep_free(a, sep),
    ensures
        split_on(a + seq![sep] + b, sep) == seq![a] + split_on(b, sep),
    decreases a.len(),
{
    let s = a + seq![sep] + b;
    assert(s.len() > 0);
    if a.len() == 0 {
        assert(s[0] == sep);
        assert(s.drop_first() =~= b);
        assert(a =~= Seq::<char>::empty());
        assert(seq![Seq::<char>::empty()] + split_on(b, sep) =~= seq![a] + split_on(b, sep));
    } else {
        assert(s[0] == a[0]);
        assert(s[0] != sep);
        assert(s.drop_first() =~= a.drop_first() + seq![sep] + b);
        lemma_split_sep_at(a.drop_first(), b, sep);
        let rest = split_on(s.drop_first(), sep);
        assert(rest == seq![a.drop_first()] + split_on(b, sep));
        assert(rest[0] == a.drop_first());
        assert(seq![s[0]] + rest[0] =~= a);
        assert(rest.update(0, a) =~= seq![a] + split_on(b, sep));
    }
}

/// The views of a vector of character vectors.
pub open spec fn views_of(parts: Seq<Vec<char>>) -> Seq<Seq<char>> {
    parts.map_values(|p: Vec<char>| p@)
}

/// An equal character vector, rebuilt element by element.
pub fn copy_chars(v: &Vec<char>) -> (r: Vec<char>)
    ensures
        r@ == v@,
{
    let mut r: Vec<char> = Vec::new();
    let mut i: usize = 0;
    while i < v.len()
        invariant
            i <= v@.len(),
            r@ == v@.subrange(0, i as int),
        decreases v@.len() - i,
    {
        r.push(v[i]);
        proof {
            assert(r@ =~= v@.subrange(0, i + 1));
        }
        i += 1;
    }
    proof {
        assert(r@ =~= v@);
    }
    r
}

/// Split the characters of `v` at every occurrence of `sep`, exactly as
/// `split_on` describes.
pub fn split_at_char(v: &Vec<char>, sep: char) -> (parts: Vec<Vec<char>>)
    ensures
        views_of(parts@) == split_on(v@, sep),
{
    let mut parts: Vec<Vec<char>> = Vec::new();
    let mut cur: Vec<char> = Vec::new();
    let mut i: usize = 0;
    proof {
        assert(views_of(parts@) =~= Seq::<Seq<char>>::empty());
        assert(cur@ + v@.subrange(0, v@.len() as int) =~= v@);
        assert(views_of(parts@) + split_on(cur@ + v@.subrange(0, v@.len() as int), sep)
            =~= split_on(v@, sep));
    }
    while i < v.len()
        invariant
            i <= v@.len(),
            sep_free(cur@, sep),
            split_on(v@, sep) == views_of(parts@) + split_on(
                cur@ + v@.subrange(i as int, v@.len() as int),
                sep,
            ),
        decreases v@.len() - i,
    {
        let ghost old_parts = parts@;
        let ghost old_cur = cur@;
        let ch = v[i];
        if ch == sep {
            proof {
                let b = v@.subrange(i + 1, v@.len() as int);
                assert(old_cur + v@.subrange(i as int, v@.len() as int) =~= old_cur + seq![sep]
                    + b);
                lemma_split_sep_at(old_cur, b, sep);
            }
            parts.push(cur);
            cur = Vec::new();
            proof {
                let b = v@.subrange(i + 1, v@.len() as int);
                assert(views_of(parts@) =~= views_of(old_parts).push(old_cur));
                assert(views_of(old_parts).push(old_cur) =~= views_of(old_parts) + seq![old_cur]);
                assert(cur@ + b =~= b);
                assert(views_of(old_parts) + (seq![old_cur] + split_on(b, sep)) =~= views_of(
                    parts@,
                ) + split_on(b, sep));
            }
        } else {
            cur.push(ch);
            proof {
                assert(cur@ + v@.subrange(i + 1, v@.len() as int) =~= old_cur + v@.subrange(
                    i as int,
                    v@.len() as int,
                ));
            }
        }
        i += 1;
    }
    proof {
        assert(cur@ + v@.subrange(i as int, v@.len() as int) =~= cur@);
        lemma_split_sep_free(cur@, sep);
    }
    let ghost old_parts = parts@;
    let ghost old_cur = cur@;
    parts.push(cur);
    proof {
        assert(views_of(parts@) =~= views_of(old_parts).push(old_cur));
        assert(views_of(old_parts) + seq![old_cur] =~= views_of(old_parts).push(old_cur));
    }
    parts
}

/// Drop one trailing carriage return, as `str::lines` does.
pub open spec fn strip_cr(l: Seq<char>) -> Seq<char> {
    if l.len() > 0 && l.last() == '\r' {
        l.drop_last()
    } else {
        l
    }
}

/// The lines of `s`: split at every newline, without a final empty piece
/// when `s` ends in a newline, each line stripped of one trailing carriage
/// return. Empty input has no lines.
pub open spec fn line_split(s: Seq<char>) -> Seq<Seq<char>> {
    if s.len() == 0 {
        Seq::empty()
    } else {
        let parts = if s.last() == '\n' {
            split_on(s, '\n').drop_last()
        } else {
            split_on(s, '\n')
        };
        parts.map_values(|l: Seq<char>| strip_cr(l))
    }
}

/// Split the characters of `v` into lines, exactly as `line_split`
/// describes.
pub fn split_lines(v: &Vec<char>) -> (lines: Vec<Vec<char>>)
    ensures
        views_of(lines@) == line_split(v@),
{
    if v.len() == 0 {
        let lines: Vec<Vec<char>> = Vec::new();
        proof {
            assert(views_of(lines@) =~= line_split(v@));
        }
        return lines;
    }
    let mut parts = split_at_char(v, '\n');
    let ghost raw = split_on(v@, '\n');
    if v[v.len() - 1] == '\n' {
        proof {
            lemma_split_on_len(v@, '\n');
            assert(parts@.len() == views_of(parts@).len());
        }
        let ghost before_pop = parts@;
        let _popped = parts.pop();
        proof {
            assert(views_of(parts@) =~= views_of(before_pop).drop_last());
            assert(views_of(parts@) =~= raw.drop_last());
        }
    }
    let ghost kept = views_of(parts@);
    let mut lines: Vec<Vec<char>> = Vec::new();
    let mut idx: usize = 0;
    while idx < parts.len()
        invariant
            idx <= parts@.len(),
            kept == views_of(parts@),
            views_of(lines@) == kept.subrange(0, idx as int).map_values(
                |l: Seq<char>| strip_cr(l),
            ),
        decreases parts@.len() - idx,
    {
        let ghost old_lines = lines@;
        let mut line = copy_chars(&parts[idx]);
        let llen = line.len();
        if llen > 0 && line[llen - 1] == '\r' {
            let _dropped = line.pop();
        }
        proof {
            assert(line@ == strip_cr(kept[idx as int]));
        }
        lines.push(line);
        proof {
            assert(views_of(lines@) =~= views_of(old_lines).push(line@));
            assert(views_of(lines@) =~= kept.subrange(0, idx + 1).map_values(
                |l: Seq<char>| strip_cr(l),
            ));
        }
        idx += 1;
    }
    proof {
        assert(kept.subrange(0, idx as int) =~= kept);
        assert(views_of(lines@) =~= line_split(v@));
    }
    lines
}

/// `ch` is a decimal digit.
pub open spec fn is_digit_char(ch: char) -> bool {
    48 <= ch as u32 <= 57
}

/// The numeric value of a digit character.
pub open spec fn digit_of(ch: char) -> int {
    ch as u32 - 48
}

/// Every character of `s` is a decimal digit.
pub open spec fn all_digits(s: Seq<char>) -> bool {
    forall|i: int| 0 <= i < s.len() ==> is_digit_char(#[trigger] s[i])
}

/// The value of `s` read as a decimal numeral.
pub open spec fn digits_val(s: Seq<char>) -> int
    decreases s.len(),
{
    if s.len() == 0 {
        0
    } else {
        digits_val(s.drop_last()) * 10 + digit_of(s.last())
    }
}

/// A numeral's value is never negative.
pub proof fn lemma_digits_val_nonneg(s: Seq<char>)
    requires
        all_digits(s),
    ensures
        digits_val(s) >= 0,
    decreases s.len(),
{
    if s.len() > 0 {
        assert(all_digits(s.drop_last()));
        lemma_digits_val_nonneg(s.drop_last());
    }
}

/// The token without one leading plus sign, the form the digits are read
/// from.
pub open spec fn unsigned_body(s: Seq<char>) -> Seq<char> {
    if s.len() > 0 && s[0] == '+' {
        s.drop_first()
    } else {
        s
    }
}

/// The token reads as a nonnegative 32-bit integer: nonempty, no minus
/// sign, digits after an optional plus sign, and no overflow. A token that
/// does not read this way stands for an open cell: a minus sign can only
/// give a non-positive value, and anything else fails to parse.
pub open spec fn token_numeric(s: Seq<char>) -> bool {
    &&& s.len() > 0
    &&& s[0] != '-'
    &&& unsigned_body(s).len() > 0
    &&& all_digits(unsigned_body(s))
    &&& digits_val(unsigned_body(s)) <= i32::MAX
}

/// The numeric value of a token that reads as a nonnegative integer.
pub open spec fn token_value(s: Seq<char>) -> int {
    digits_val(unsigned_body(s))
}

/// The token names a clue digit.
pub open spec fn token_clue(s: Seq<char>) -> bool {
    token_numeric(s) && 1 <= token_value(s) <= 9
}

/// The token names a positive number too large to be a clue digit.
pub open spec fn token_out_of_range(s: Seq<char>) -> bool {
    token_numeric(s) && token_value(s) >= 10
}

/// What the loader makes of one token.
pub enum TokenKind {
    /// The cell stays open: the token is `0`, negative, or unreadable.
    Open,
    /// The token is a clue digit 1..=9.
    Clue(i32),
    /// The token is a positive number greater than 9.
    OutOfRange,
}

/// Read one comma-separated token the way the loader needs it: a digit
/// 1..=9 is a clue, a readable value of 0 or more than 9 is told apart, and
/// everything else (empty, signed negative, unreadable, overflowing) leaves
/// the cell open.
pub fn classify_token(t: &Vec<char>) -> (k: TokenKind)
    ensures
        k is Clue <==> token_clue(t@),
        k is Clue ==> 1 <= k->Clue_0 <= 9 && k->Clue_0 as int == token_value(t@),
        k is OutOfRange <==> token_out_of_range(t@),
{
    if t.len() == 0 {
        return TokenKind::Open;
    }
    let c0 = t[0];
    if c0 == '-' {
        return TokenKind::Open;
    }
    let start: usize = if c0 == '+' {
        1
    } else {
        0
    };
    if start == t.len() {
        proof {
            assert(unsigned_body(t@).len() == 0);
        }
        return TokenKind::Open;
    }
    let ghost u = unsigned_body(t@);
    proof {
        assert(u =~= t@.subrange(start as int, t@.len() as int));
    }
    let mut acc: u64 = 0;
    let mut i: usize = start;
    while i < t.len()
        invariant
            start <= i <= t@.len(),
            start < t@.len(),
            u == unsigned_body(t@),
            u =~= t@.subrange(start as int, t@.len() as int),
            forall|j: int| start <= j < i ==> is_digit_char(#[trigger] t@[j]),
            acc <= 0x7fffffff ==> acc as int == digits_val(t@.subrange(start as int, i as int)),
            acc > 0x7fffffff ==> digits_val(t@.subrange(start as int, i as int)) > i32::MAX,
            acc <= 21474836479,
        decreases t@.len() - i,
    {
        let ch = t[i];
        let d = ch as u32;
        if d < 48 || d > 57 {
            proof {
                assert(!is_digit_char(t@[i as int]));
                assert(u[i - start] == t@[i as int]);
                assert(!all_digits(u));
            }
            return TokenKind::Open;
        }
        proof {
            let pref = t@.subrange(start as int, i as int);
            let pref1 = t@.subrange(start as int, i + 1);
            assert(pref1 =~= pref.push(t@[i as int]));
            assert(pref1.drop_last() =~= pref);
            assert(digits_val(pref1) == digits_val(pref) * 10 + digit_of(t@[i as int]));
            assert(all_digits(pref));
            lemma_digits_val_nonneg(pref);
            if acc > 0x7fffffff {
                assert(digits_val(pref1) > i32::MAX);
            }
        }
        if acc <= 0x7fff_ffff {
            acc = acc * 10 + ((d - 48) as u64);
        }
        i += 1;
    }
    proof {
        assert(t@.subrange(start as int, i as int) =~= u);
        assert(all_digits(u));
    }
    if acc > 0x7fff_ffff {
        proof {
            assert(digits_val(u) > i32::MAX);
            assert(!token_numeric(t@));
        }
        return TokenKind::Open;
    }
    let value = acc as i32;
    proof {
        assert(value as int == digits_val(u));
        assert(token_numeric(t@));
    }
    if value == 0 {
        return TokenKind::Open;
    }
    if value <= 9 {
        return TokenKind::Clue(value);
    }
    TokenKind::OutOfRange
}

} // verus!
