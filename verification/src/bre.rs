//! Reading a POSIX basic regular expression, with the GNU extensions that
//! `git grep` accepts, and writing it out in the syntax of the `fancy-regex`
//! engine.
//!
//! What is read: ordinary characters; `\` before an ordinary character for
//! that character; `.`; bracket expressions `[...]`, `[^...]` with members,
//! ranges, character classes `[:name:]` and one-character `[=c=]` and
//! `[.c.]`; `*`, `\+`, `\?` and intervals `\{m\}`, `\{m,\}`, `\{,n\}`,
//! `\{m,n\}` (bounds at most 32767); groups `\(...\)` and back-references
//! `\1` to `\9` to closed groups; alternation `\|`; `^` and `$` anchors where
//! POSIX and GNU read them so; `\w`, `\W`, `\s`, `\S`, `\b`, `\B`, `\<`,
//! `\>`, `` \` `` and `\'`. A repetition with nothing to repeat is an
//! ordinary character (`*`, `\+`, `\?`) or an error (`\{`). Character classes
//! are read as in the C locale.
use crate::lines::{digits_value, is_digit, lemma_digits_value_grows};
use crate::text::{chars_equal, chars_of};
use vstd::prelude::*;

verus! {

/// Where the reading of a pattern stands.
pub enum TrMode {
    /// Between items.
    Body,
    /// In a bracket expression: what it becomes so far, and whether the next
    /// member is its first.
    Bracket(Seq<char>, bool),
    /// In `[:`, `[=` or `[.` of a bracket expression: the kind, the name so
    /// far, and the bracket expression before it.
    Class(char, Seq<char>, Seq<char>),
    /// In an interval: the lower bound, whether the comma was read, the
    /// upper bound.
    Interval(Option<nat>, bool, Option<nat>),
}

/// The reading state: the output so far, the output positions of the open
/// groups, how many groups are closed, whether a `*` here is an ordinary
/// character and a `^` an anchor, where the last repeatable item starts in
/// the output, and whether it carries a repetition already.
pub struct TrState {
    pub out: Seq<char>,
    pub groups: Seq<int>,
    pub closed: nat,
    pub at_start: bool,
    pub last: Option<int>,
    pub repeated: bool,
    pub mode: TrMode,
}

/// The lowercase hex digit of `d < 16`.
pub open spec fn hex_char_of(d: nat) -> char {
    if d < 10 {
        (48 + d) as char
    } else {
        (87 + d) as char
    }
}

/// `n` in hex.
pub open spec fn hex_chars(n: nat) -> Seq<char>
    decreases n,
{
    if n < 16 {
        seq![hex_char_of(n)]
    } else {
        hex_chars(n / 16).push(hex_char_of(n % 16))
    }
}

/// `n` in decimal.
pub open spec fn dec_chars(n: nat) -> Seq<char>
    decreases n,
{
    if n < 10 {
        seq![(48 + n) as char]
    } else {
        dec_chars(n / 10).push((48 + n % 10) as char)
    }
}

/// The engine's spelling of the character `c`: `\x{..}` with its code.
pub open spec fn esc(c: char) -> Seq<char> {
    seq!['\\', 'x', '{'] + hex_chars(c as nat) + seq!['}']
}

/// Whether `name` is a character class name.
pub open spec fn is_class_name(name: Seq<char>) -> bool {
    ||| name == "alnum"@
    ||| name == "alpha"@
    ||| name == "blank"@
    ||| name == "cntrl"@
    ||| name == "digit"@
    ||| name == "graph"@
    ||| name == "lower"@
    ||| name == "print"@
    ||| name == "punct"@
    ||| name == "space"@
    ||| name == "upper"@
    ||| name == "xdigit"@
}

/// Appends a repeatable item.
pub open spec fn emit_item(st: TrState, text: Seq<char>) -> TrState {
    TrState { out: st.out + text, last: Some(st.out.len() as int), repeated: false, at_start: false, ..st }
}

/// Appends what cannot be repeated (an anchor, an assertion, `|`).
pub open spec fn emit_mark(st: TrState, text: Seq<char>, at_start: bool) -> TrState {
    TrState { out: st.out + text, last: None, repeated: false, at_start, ..st }
}

/// Applies the repetition `op` to the last item, grouping the item first
/// when it is repeated already.
pub open spec fn apply_rep(st: TrState, op: Seq<char>) -> TrState {
    let s = match st.last {
        Some(s) => s,
        None => 0,
    };
    let out = if st.repeated {
        st.out.take(s) + seq!['(', '?', ':'] + st.out.skip(s) + seq![')'] + op
    } else {
        st.out + op
    };
    TrState { out, repeated: true, at_start: false, ..st }
}

/// What reading on from position `i` gives: a failure, or the next
/// position and state.
pub enum TrStep {
    Fail,
    Next(int, TrState),
}

/// Reads from position `i`, between items.
pub open spec fn body_step(p: Seq<char>, i: int, st: TrState) -> TrStep {
    let c = p[i];
    if c == '\\' {
        if i + 1 >= p.len() {
            TrStep::Fail
        } else {
            let d = p[i + 1];
            if d == '(' {
                TrStep::Next(
                    i + 2,
                    TrState {
                        out: st.out.push('('),
                        groups: st.groups.push(st.out.len() as int),
                        at_start: true,
                        last: None,
                        repeated: false,
                        ..st
                    },
                )
            } else if d == ')' {
                if st.groups.len() == 0 {
                    TrStep::Fail
                } else {
                    TrStep::Next(
                        i + 2,
                        TrState {
                            out: st.out.push(')'),
                            groups: st.groups.drop_last(),
                            closed: st.closed + 1,
                            at_start: false,
                            last: Some(st.groups.last()),
                            repeated: false,
                            ..st
                        },
                    )
                }
            } else if d == '|' {
                TrStep::Next(i + 2, emit_mark(st, seq!['|'], true))
            } else if d == '{' {
                if st.last is None {
                    TrStep::Fail
                } else {
                    TrStep::Next(i + 2, TrState { mode: TrMode::Interval(None, false, None), ..st })
                }
            } else if d == '+' || d == '?' {
                if st.last is None {
                    TrStep::Next(i + 2, emit_item(st, esc(d)))
                } else {
                    TrStep::Next(i + 2, apply_rep(st, seq![d]))
                }
            } else if '1' <= d && d <= '9' {
                if (d as int) - 48 > st.closed {
                    TrStep::Fail
                } else {
                    TrStep::Next(i + 2, emit_item(st, seq!['\\', d]))
                }
            } else if d == 'w' || d == 'W' || d == 's' || d == 'S' {
                TrStep::Next(i + 2, emit_item(st, seq!['\\', d]))
            } else if d == 'b' || d == 'B' {
                TrStep::Next(i + 2, emit_mark(st, seq!['\\', d], false))
            } else if d == '<' {
                TrStep::Next(i + 2, emit_mark(st, "\\b(?=\\w)"@, false))
            } else if d == '>' {
                TrStep::Next(i + 2, emit_mark(st, "\\b(?<=\\w)"@, false))
            } else if d == '`' {
                TrStep::Next(i + 2, emit_mark(st, seq!['\\', 'A'], false))
            } else if d == '\'' {
                TrStep::Next(i + 2, emit_mark(st, seq!['\\', 'z'], false))
            } else {
                TrStep::Next(i + 2, emit_item(st, esc(d)))
            }
        }
    } else if c == '[' {
        if i + 1 < p.len() && p[i + 1] == '^' {
            TrStep::Next(i + 2, TrState { mode: TrMode::Bracket(seq!['[', '^'], true), ..st })
        } else {
            TrStep::Next(i + 1, TrState { mode: TrMode::Bracket(seq!['['], true), ..st })
        }
    } else if c == '*' {
        if st.last is None {
            TrStep::Next(i + 1, emit_item(st, esc(c)))
        } else {
            TrStep::Next(i + 1, apply_rep(st, seq!['*']))
        }
    } else if c == '^' && st.at_start {
        TrStep::Next(i + 1, emit_mark(st, seq!['^'], true))
    } else if c == '$' && (i + 1 == p.len() || (i + 2 < p.len() && p[i + 1] == '\\' && (p[i + 2] == ')'
        || p[i + 2] == '|'))) {
        TrStep::Next(i + 1, emit_mark(st, seq!['$'], false))
    } else if c == '.' {
        TrStep::Next(i + 1, emit_item(st, seq!['.']))
    } else {
        TrStep::Next(i + 1, emit_item(st, esc(c)))
    }
}

/// Reads from position `i` inside a bracket expression.
pub open spec fn bracket_step(p: Seq<char>, i: int, st: TrState, buf: Seq<char>, first: bool) -> TrStep {
    let c = p[i];
    if c == ']' && !first {
        TrStep::Next(i + 1, TrState { mode: TrMode::Body, ..emit_item(st, buf.push(']')) })
    } else if c == '[' && i + 1 < p.len() && (p[i + 1] == ':' || p[i + 1] == '=' || p[i + 1] == '.') {
        TrStep::Next(i + 2, TrState { mode: TrMode::Class(p[i + 1], Seq::empty(), buf), ..st })
    } else if i + 2 < p.len() && p[i + 1] == '-' && p[i + 2] != ']' {
        if c <= p[i + 2] {
            TrStep::Next(
                i + 3,
                TrState { mode: TrMode::Bracket(buf + esc(c) + seq!['-'] + esc(p[i + 2]), false), ..st },
            )
        } else {
            TrStep::Fail
        }
    } else {
        TrStep::Next(i + 1, TrState { mode: TrMode::Bracket(buf + esc(c), false), ..st })
    }
}

/// Reads from position `i` inside `[:`, `[=` or `[.`.
pub open spec fn class_step(p: Seq<char>, i: int, st: TrState, kind: char, name: Seq<char>, buf: Seq<char>) -> TrStep {
    let c = p[i];
    if c == kind && i + 1 < p.len() && p[i + 1] == ']' {
        if kind == ':' {
            if is_class_name(name) {
                TrStep::Next(
                    i + 2,
                    TrState {
                        mode: TrMode::Bracket(buf + seq!['[', ':'] + name + seq![':', ']'], false),
                        ..st
                    },
                )
            } else {
                TrStep::Fail
            }
        } else if name.len() == 1 {
            TrStep::Next(i + 2, TrState { mode: TrMode::Bracket(buf + esc(name[0]), false), ..st })
        } else {
            TrStep::Fail
        }
    } else {
        TrStep::Next(i + 1, TrState { mode: TrMode::Class(kind, name.push(c), buf), ..st })
    }
}

/// A bound with one more digit.
pub open spec fn more_digits(b: Option<nat>, d: char) -> nat {
    let v: nat = match b {
        Some(v) => v,
        None => 0,
    };
    v * 10 + ((d as int) - 48) as nat
}

/// The repetition operator of an interval.
pub open spec fn interval_op(lo: Option<nat>, comma: bool, hi: Option<nat>) -> Seq<char> {
    seq!['{'] + dec_chars(
        match lo {
            Some(v) => v,
            None => 0,
        },
    ) + (if comma {
        seq![','] + match hi {
            Some(v) => dec_chars(v),
            None => Seq::empty(),
        }
    } else {
        Seq::empty()
    }) + seq!['}']
}

/// Reads from position `i` inside an interval.
pub open spec fn interval_step(
    p: Seq<char>,
    i: int,
    st: TrState,
    lo: Option<nat>,
    comma: bool,
    hi: Option<nat>,
) -> TrStep {
    let c = p[i];
    if '0' <= c && c <= '9' {
        if !comma {
            if more_digits(lo, c) > 32767 {
                TrStep::Fail
            } else {
                TrStep::Next(i + 1, TrState { mode: TrMode::Interval(Some(more_digits(lo, c)), comma, hi), ..st })
            }
        } else {
            if more_digits(hi, c) > 32767 {
                TrStep::Fail
            } else {
                TrStep::Next(i + 1, TrState { mode: TrMode::Interval(lo, comma, Some(more_digits(hi, c))), ..st })
            }
        }
    } else if c == ',' && !comma {
        TrStep::Next(i + 1, TrState { mode: TrMode::Interval(lo, true, hi), ..st })
    } else if c == '\\' && i + 1 < p.len() && p[i + 1] == '}' {
        if lo is None && !comma {
            TrStep::Fail
        } else if lo is Some && hi is Some && lo.unwrap() > hi.unwrap() {
            TrStep::Fail
        } else {
            TrStep::Next(
                i + 2,
                TrState { mode: TrMode::Body, ..apply_rep(st, interval_op(lo, comma, hi)) },
            )
        }
    } else {
        TrStep::Fail
    }
}

/// Reads from position `i`.
pub open spec fn tr_step(p: Seq<char>, i: int, st: TrState) -> TrStep {
    match st.mode {
        TrMode::Body => body_step(p, i, st),
        TrMode::Bracket(buf, first) => bracket_step(p, i, st, buf, first),
        TrMode::Class(kind, name, buf) => class_step(p, i, st, kind, name, buf),
        TrMode::Interval(lo, comma, hi) => interval_step(p, i, st, lo, comma, hi),
    }
}

/// The engine pattern for the rest of `p` from position `i` on.
pub open spec fn tr_from(p: Seq<char>, i: int, st: TrState) -> Option<Seq<char>>
    decreases p.len() - i,
{
    if i < 0 || i >= p.len() {
        if st.mode is Body && st.groups.len() == 0 {
            Some(st.out)
        } else {
            None
        }
    } else {
        match tr_step(p, i, st) {
            TrStep::Fail => None,
            TrStep::Next(j, next) => if i < j {
                tr_from(p, j, next)
            } else {
                None
            },
        }
    }
}

/// The starting state.
pub open spec fn tr_start() -> TrState {
    TrState {
        out: Seq::empty(),
        groups: Seq::empty(),
        closed: 0,
        at_start: true,
        last: None,
        repeated: false,
        mode: TrMode::Body,
    }
}

/// The engine pattern that the basic regular expression `p` becomes, if
/// `p` is well formed.
pub open spec fn translate(p: Seq<char>) -> Option<Seq<char>> {
    tr_from(p, 0, tr_start())
}

// ---- What the written-out pattern means ----

/// Whether `c` stands for itself wherever it occurs in a basic regular
/// expression (a line feed, which separates patterns, is left out).
pub open spec fn is_ordinary(c: char) -> bool {
    c != '\\' && c != '[' && c != '*' && c != '.' && c != '^' && c != '$' && c != '\n'
}

/// Whether every character of `p` stands for itself.
pub open spec fn all_ordinary(p: Seq<char>) -> bool {
    forall|i: int| 0 <= i < p.len() ==> is_ordinary(#[trigger] p[i])
}

/// The engine pattern that spells the characters of `s` one by one, each
/// by its code, and nothing else: it matches exactly the text `s`.
pub open spec fn literal_pattern(s: Seq<char>) -> Seq<char>
    decreases s.len(),
{
    if s.len() == 0 {
        Seq::empty()
    } else {
        seq!['\\', 'x', '{'] + hex_chars(s[0] as nat) + seq!['}'] + literal_pattern(s.drop_first())
    }
}

/// The value of a lowercase hex digit.
pub open spec fn hex_digit_value(c: char) -> int {
    if c <= '9' {
        (c as int) - 48
    } else {
        (c as int) - 87
    }
}

/// The number that the lowercase hex digits `s` spell.
pub open spec fn hex_value(s: Seq<char>) -> int
    decreases s.len(),
{
    if s.len() == 0 {
        0
    } else {
        hex_value(s.drop_last()) * 16 + hex_digit_value(s.last())
    }
}

/// The hex digits written for `n` spell `n`: an escape `\x{..}` names the
/// code of its character.
pub proof fn lemma_hex_spells(n: nat)
    ensures
        hex_value(hex_chars(n)) == n,
        forall|i: int|
            0 <= i < hex_chars(n).len() ==> ('0' <= #[trigger] hex_chars(n)[i] <= '9' || 'a' <= hex_chars(n)[i]
                <= 'f'),
    decreases n,
{
    assert(0 <= n % 16 < 16) by (nonlinear_arith);
    assert(n < 16 ==> n % 16 == n) by (nonlinear_arith);
    let d = hex_char_of(n % 16);
    assert(hex_digit_value(d) == n % 16);
    assert('0' <= d <= '9' || 'a' <= d <= 'f');
    if n >= 16 {
        lemma_hex_spells(n / 16);
        assert(n == (n / 16) * 16 + n % 16) by (nonlinear_arith);
        assert(hex_chars(n).drop_last() =~= hex_chars(n / 16));
        assert(hex_chars(n).last() == d);
        assert(hex_value(hex_chars(n)) == hex_value(hex_chars(n / 16)) * 16 + hex_digit_value(d));
        assert forall|i: int| 0 <= i < hex_chars(n).len() implies ('0' <= #[trigger] hex_chars(n)[i] <= '9' || 'a'
            <= hex_chars(n)[i] <= 'f') by {
            if i < hex_chars(n / 16).len() {
                assert(hex_chars(n)[i] == hex_chars(n / 16)[i]);
            }
        }
    } else {
        assert(hex_chars(n).drop_last() =~= Seq::<char>::empty());
        assert(hex_chars(n).last() == d);
        assert(hex_value(Seq::<char>::empty()) == 0);
        assert(hex_value(hex_chars(n)) == hex_value(Seq::<char>::empty()) * 16 + hex_digit_value(d));
    }
}

/// The decimal digits written for `n` spell `n`.
pub proof fn lemma_dec_spells(n: nat)
    ensures
        digits_value(dec_chars(n)) == n,
        forall|i: int| 0 <= i < dec_chars(n).len() ==> '0' <= #[trigger] dec_chars(n)[i] <= '9',
    decreases n,
{
    assert(0 <= n % 10 < 10) by (nonlinear_arith);
    assert(n < 10 ==> n % 10 == n) by (nonlinear_arith);
    let d = (48 + n % 10) as char;
    assert(d as int == 48 + n % 10);
    if n >= 10 {
        lemma_dec_spells(n / 10);
        assert(n == (n / 10) * 10 + n % 10) by (nonlinear_arith);
        assert(dec_chars(n).drop_last() =~= dec_chars(n / 10));
        assert(dec_chars(n).last() == d);
        assert(digits_value(dec_chars(n)) == digits_value(dec_chars(n / 10)) * 10 + ((d as int) - 48));
        assert forall|i: int| 0 <= i < dec_chars(n).len() implies '0' <= #[trigger] dec_chars(n)[i] <= '9' by {
            if i < dec_chars(n / 10).len() {
                assert(dec_chars(n)[i] == dec_chars(n / 10)[i]);
            }
        }
    } else {
        assert(dec_chars(n).drop_last() =~= Seq::<char>::empty());
        assert(dec_chars(n).last() == d);
        assert(digits_value(Seq::<char>::empty()) == 0);
        assert(digits_value(dec_chars(n)) == digits_value(Seq::<char>::empty()) * 10 + ((d as int) - 48));
    }
}

/// Reading ordinary characters between items writes each out as its
/// escape, one after the other.
proof fn lemma_ordinary_run(p: Seq<char>, i: int, st: TrState)
    requires
        0 <= i <= p.len(),
        st.mode is Body,
        st.groups.len() == 0,
        forall|j: int| i <= j < p.len() ==> is_ordinary(#[trigger] p[j]),
    ensures
        tr_from(p, i, st) == Some(st.out + literal_pattern(p.skip(i))),
    decreases p.len() - i,
{
    if i == p.len() {
        assert(p.skip(i) =~= Seq::<char>::empty());
        assert(st.out + literal_pattern(p.skip(i)) =~= st.out);
    } else {
        let c = p[i];
        assert(is_ordinary(c));
        let next = emit_item(st, esc(c));
        assert(tr_step(p, i, st) == TrStep::Next(i + 1, next));
        lemma_ordinary_run(p, i + 1, next);
        assert(p.skip(i).drop_first() =~= p.skip(i + 1));
        assert(p.skip(i)[0] == c);
        assert(st.out + literal_pattern(p.skip(i)) =~= next.out + literal_pattern(p.skip(i + 1)));
    }
}

/// A pattern of ordinary characters is written out as the escapes of its
/// characters, in order, and nothing else: no flag (such as one that
/// ignores case), anchor or operator is added.
pub proof fn law_ordinary_pattern_is_literal(p: Seq<char>)
    requires
        all_ordinary(p),
    ensures
        translate(p) == Some(literal_pattern(p)),
{
    lemma_ordinary_run(p, 0, tr_start());
    assert(p.skip(0) =~= p);
    assert(Seq::<char>::empty() + literal_pattern(p) =~= literal_pattern(p));
}

/// The bound read so far from the digits `p[a..i]`: none before the first.
pub open spec fn bound_read(p: Seq<char>, a: int, i: int) -> Option<nat> {
    if i <= a {
        None
    } else {
        Some(digits_value(p.subrange(a, i)))
    }
}

/// The interval mode with the bound being read in place.
pub open spec fn reading_mode(comma: bool, other: Option<nat>, bound: Option<nat>) -> TrMode {
    if comma {
        TrMode::Interval(other, true, bound)
    } else {
        TrMode::Interval(bound, false, other)
    }
}

/// Reading the digits of a bound accumulates their value.
#[verifier::spinoff_prover]
proof fn lemma_read_digits(
    p: Seq<char>,
    a: int,
    i: int,
    b: int,
    st: TrState,
    comma: bool,
    other: Option<nat>,
)
    requires
        0 <= a <= i <= b <= p.len(),
        forall|j: int| a <= j < b ==> is_digit(#[trigger] p[j]),
        digits_value(p.subrange(a, b)) <= 32767,
        st.mode == reading_mode(comma, other, bound_read(p, a, i)),
    ensures
        tr_from(p, i, st) == tr_from(p, b, TrState { mode: reading_mode(comma, other, bound_read(p, a, b)), ..st }),
    decreases b - i,
{
    if i == b {
        assert(st == TrState { mode: reading_mode(comma, other, bound_read(p, a, b)), ..st });
    } else {
        let c = p[i];
        assert(is_digit(c));
        let sub = p.subrange(a, i + 1);
        assert(sub.drop_last() =~= p.subrange(a, i));
        assert(sub.last() == c);
        assert(more_digits(bound_read(p, a, i), c) == digits_value(sub)) by {
            let v: nat = match bound_read(p, a, i) {
                Some(v) => v,
                None => 0,
            };
            if i == a {
                assert(p.subrange(a, i) =~= Seq::<char>::empty());
                assert(digits_value(Seq::<char>::empty()) == 0);
            }
            assert(v == digits_value(p.subrange(a, i)));
            assert(digits_value(sub) == digits_value(sub.drop_last()) * 10 + ((c as int) - 48) as nat);
            assert(more_digits(bound_read(p, a, i), c) == v * 10 + ((c as int) - 48) as nat);
        }
        lemma_digits_value_grows(p.subrange(a, b), i + 1 - a);
        assert(p.subrange(a, b).take(i + 1 - a) =~= sub);
        let next = TrState { mode: reading_mode(comma, other, bound_read(p, a, i + 1)), ..st };
        assert(tr_step(p, i, st) == TrStep::Next(i + 1, next));
        lemma_read_digits(p, a, i + 1, b, next, comma, other);
    }
}

/// Reading ordinary characters between items, from position `i` up to
/// position `k`, writes out their escapes and leaves the last of them
/// ready to be repeated.
proof fn lemma_ordinary_prefix(p: Seq<char>, i: int, k: int, st: TrState) -> (next: TrState)
    requires
        0 <= i < k <= p.len(),
        st.mode is Body,
        forall|j: int| i <= j < k ==> is_ordinary(#[trigger] p[j]),
    ensures
        tr_from(p, i, st) == tr_from(p, k, next),
        next.out == st.out + literal_pattern(p.subrange(i, k)),
        next.mode is Body,
        next.groups == st.groups,
        next.closed == st.closed,
        next.last is Some,
        !next.repeated,
    decreases k - i,
{
    let c = p[i];
    assert(is_ordinary(c));
    let step = emit_item(st, esc(c));
    assert(tr_step(p, i, st) == TrStep::Next(i + 1, step));
    assert(p.subrange(i, k).drop_first() =~= p.subrange(i + 1, k));
    assert(p.subrange(i, k)[0] == c);
    if i + 1 == k {
        assert(p.subrange(i + 1, k) =~= Seq::<char>::empty());
        assert(literal_pattern(p.subrange(i + 1, k)) =~= Seq::<char>::empty());
        assert(literal_pattern(p.subrange(i, k)) == esc(c) + literal_pattern(p.subrange(i + 1, k)));
        assert(step.out =~= st.out + literal_pattern(p.subrange(i, k)));
        step
    } else {
        let next = lemma_ordinary_prefix(p, i + 1, k, step);
        assert(next.out =~= st.out + literal_pattern(p.subrange(i, k)));
        next
    }
}

/// The bound written for the digits `d`: their value, or none when there
/// are none.
pub open spec fn bound_of(d: Seq<char>) -> Option<nat> {
    if d.len() == 0 {
        None
    } else {
        Some(digits_value(d))
    }
}

/// An interval after a run of ordinary characters (`\{m\}`, `\{m,\}`,
/// `\{,n\}` or `\{m,n\}`) is written out with its bounds as read: a missing
/// lower bound as `0`, an upper bound exactly when one was given, so
/// `\{m,n\}` allows between `m` and `n` repetitions of the last character
/// and no more. The written bounds spell the numbers read (see
/// `lemma_dec_spells`). An interval with neither a lower bound nor a comma,
/// or with its bounds in the wrong order, is refused.
#[verifier::spinoff_prover]
#[verifier::rlimit(40)]
pub proof fn law_interval_keeps_its_bounds(s: Seq<char>, lo: Seq<char>, comma: bool, hi: Seq<char>)
    requires
        s.len() > 0,
        all_ordinary(s),
        !comma ==> hi.len() == 0,
        forall|j: int| 0 <= j < lo.len() ==> is_digit(#[trigger] lo[j]),
        forall|j: int| 0 <= j < hi.len() ==> is_digit(#[trigger] hi[j]),
        digits_value(lo) <= 32767,
        digits_value(hi) <= 32767,
    ensures
        translate(
            s + seq!['\\', '{'] + lo + (if comma {
                seq![','] + hi
            } else {
                Seq::empty()
            }) + seq!['\\', '}'],
        ) == if (!comma && lo.len() == 0) || (lo.len() > 0 && hi.len() > 0 && digits_value(lo) > digits_value(
            hi,
        )) {
            None
        } else {
            Some(
                literal_pattern(s) + seq!['{'] + dec_chars(digits_value(lo)) + (if comma {
                    seq![','] + if hi.len() > 0 {
                        dec_chars(digits_value(hi))
                    } else {
                        Seq::empty()
                    }
                } else {
                    Seq::empty()
                }) + seq!['}'],
            )
        },
{
    let tail: Seq<char> = if comma {
        seq![','] + hi
    } else {
        Seq::empty()
    };
    let p = s + seq!['\\', '{'] + lo + tail + seq!['\\', '}'];
    let k = s.len() as int;
    let a = k + 2;
    let b = a + lo.len();
    assert forall|j: int| 0 <= j < k implies is_ordinary(#[trigger] p[j]) by {
        assert(p[j] == s[j]);
    }
    let st1 = lemma_ordinary_prefix(p, 0, k, tr_start());
    assert(p.subrange(0, k) =~= s);
    assert(p[k] == '\\' && p[k + 1] == '{');
    let st2 = TrState { mode: TrMode::Interval(None, false, None), ..st1 };
    assert(tr_step(p, k, st1) == TrStep::Next(k + 2, st2));
    assert forall|j: int| a <= j < b implies is_digit(#[trigger] p[j]) by {
        assert(p[j] == lo[j - a]);
    }
    assert(p.subrange(a, b) =~= lo);
    assert(st2.mode == reading_mode(false, None, bound_read(p, a, a)));
    lemma_read_digits(p, a, a, b, st2, false, None);
    let m = bound_of(lo);
    let st3 = TrState { mode: TrMode::Interval(m, false, None), ..st2 };
    assert(st3 == TrState { mode: reading_mode(false, None, bound_read(p, a, b)), ..st2 });
    if lo.len() == 0 {
        assert(digits_value(lo) == 0);
    }
    if comma {
        let c = b + 1;
        let e = c + hi.len();
        assert(p.len() == e + 2);
        assert(p[b] == ',');
        let st4 = TrState { mode: TrMode::Interval(m, true, None), ..st3 };
        assert(tr_step(p, b, st3) == TrStep::Next(c, st4));
        assert forall|j: int| c <= j < e implies is_digit(#[trigger] p[j]) by {
            assert(p[j] == hi[j - c]);
        }
        assert(p.subrange(c, e) =~= hi);
        assert(st4.mode == reading_mode(true, m, bound_read(p, c, c)));
        lemma_read_digits(p, c, c, e, st4, true, m);
        let n = bound_of(hi);
        let st5 = TrState { mode: TrMode::Interval(m, true, n), ..st4 };
        assert(st5 == TrState { mode: reading_mode(true, m, bound_read(p, c, e)), ..st4 });
        assert(p[e] == '\\' && p[e + 1] == '}');
        if lo.len() > 0 && hi.len() > 0 && digits_value(lo) > digits_value(hi) {
            assert(tr_step(p, e, st5) == TrStep::Fail);
        } else {
            let st6 = TrState { mode: TrMode::Body, ..apply_rep(st5, interval_op(m, true, n)) };
            assert(tr_step(p, e, st5) == TrStep::Next(e + 2, st6));
            assert(tr_from(p, e + 2, st6) == Some(st6.out));
            assert(st6.out =~= literal_pattern(s) + seq!['{'] + dec_chars(digits_value(lo)) + (seq![','] + if hi.len()
                > 0 {
                dec_chars(digits_value(hi))
            } else {
                Seq::empty()
            }) + seq!['}']);
        }
    } else {
        assert(p.len() == b + 2);
        assert(p[b] == '\\' && p[b + 1] == '}');
        if lo.len() == 0 {
            assert(tr_step(p, b, st3) == TrStep::Fail);
        } else {
            let st6 = TrState { mode: TrMode::Body, ..apply_rep(st3, interval_op(m, false, None)) };
            assert(tr_step(p, b, st3) == TrStep::Next(b + 2, st6));
            assert(tr_from(p, b + 2, st6) == Some(st6.out));
            assert(st6.out =~= literal_pattern(s) + seq!['{'] + dec_chars(digits_value(lo)) + Seq::<char>::empty()
                + seq!['}']);
        }
    }
}

// ---- Reading ----

/// The reading mode, as the reader holds it.
pub enum Mode {
    Body,
    Bracket(Vec<char>, bool),
    Class(char, Vec<char>, Vec<char>),
    Interval(Option<u32>, bool, Option<u32>),
}

/// A bound as a value.
pub open spec fn bound_view(b: Option<u32>) -> Option<nat> {
    match b {
        Some(v) => Some(v as nat),
        None => None,
    }
}

impl View for Mode {
    type V = TrMode;

    open spec fn view(&self) -> TrMode {
        match self {
            Mode::Body => TrMode::Body,
            Mode::Bracket(buf, first) => TrMode::Bracket(buf@, *first),
            Mode::Class(kind, name, buf) => TrMode::Class(*kind, name@, buf@),
            Mode::Interval(lo, comma, hi) => TrMode::Interval(bound_view(*lo), *comma, bound_view(*hi)),
        }
    }
}

/// The reading state, as the reader holds it.
pub struct Reader {
    pub out: Vec<char>,
    pub groups: Vec<usize>,
    pub closed: usize,
    pub at_start: bool,
    pub last: Option<usize>,
    pub repeated: bool,
    pub mode: Mode,
}

impl View for Reader {
    type V = TrState;

    open spec fn view(&self) -> TrState {
        TrState {
            out: self.out@,
            groups: self.groups@.map_values(|g: usize| g as int),
            closed: self.closed as nat,
            at_start: self.at_start,
            last: match self.last {
                Some(s) => Some(s as int),
                None => None,
            },
            repeated: self.repeated,
            mode: self.mode@,
        }
    }
}

impl Reader {
    /// Positions stay within the output, and counts within the input read.
    pub open spec fn inv(&self, i: int) -> bool {
        &&& (self.last matches Some(s) ==> s <= self.out@.len())
        &&& forall|k: int| 0 <= k < self.groups@.len() ==> #[trigger] self.groups@[k] <= self.out@.len()
        &&& self.closed <= i
        &&& self.groups@.len() <= i
        &&& (self.mode matches Mode::Interval(lo, _, hi) ==> (lo matches Some(v) ==> v <= 32767) && (hi matches Some(
            v,
        ) ==> v <= 32767) && self.last is Some)
    }
}

/// Appends `s`.
fn push_all(out: &mut Vec<char>, s: &[char])
    ensures
        final(out)@ == old(out)@ + s@,
{
    let mut k: usize = 0;
    while k < s.len()
        invariant
            k <= s@.len(),
            out@ == old(out)@ + s@.take(k as int),
        decreases s@.len() - k,
    {
        out.push(s[k]);
        assert(out@ =~= old(out)@ + s@.take(k + 1));
        k = k + 1;
    }
    assert(s@.take(k as int) =~= s@);
}

/// Appends `n` in hex.
fn push_hex(out: &mut Vec<char>, n: u32)
    ensures
        final(out)@ == old(out)@ + hex_chars(n as nat),
    decreases n,
{
    if n >= 16 {
        push_hex(out, n / 16);
    }
    let d = n % 16;
    let c = if d < 10 { ((48 + d) as u8) as char } else { ((87 + d) as u8) as char };
    assert(c == hex_char_of(d as nat));
    out.push(c);
    assert(out@ =~= old(out)@ + hex_chars(n as nat));
}

/// Appends `n` in decimal.
fn push_dec(out: &mut Vec<char>, n: u32)
    ensures
        final(out)@ == old(out)@ + dec_chars(n as nat),
    decreases n,
{
    if n >= 10 {
        push_dec(out, n / 10);
    }
    let c = ((48 + n % 10) as u8) as char;
    out.push(c);
    assert(out@ =~= old(out)@ + dec_chars(n as nat));
}

/// Appends the engine's spelling of `c`.
fn push_esc(out: &mut Vec<char>, c: char)
    ensures
        final(out)@ == old(out)@ + esc(c),
{
    out.push('\\');
    out.push('x');
    out.push('{');
    push_hex(out, c as u32);
    out.push('}');
    assert(out@ =~= old(out)@ + esc(c));
}

/// The engine's spelling of `c`.
fn esc_chars(c: char) -> (v: Vec<char>)
    ensures
        v@ == esc(c),
{
    let mut v: Vec<char> = Vec::new();
    push_esc(&mut v, c);
    assert(v@ =~= esc(c));
    v
}

/// Appends a repeatable item.
fn emit_item_in(st: &mut Reader, text: &[char], Ghost(i): Ghost<int>)
    requires
        old(st).inv(i),
    ensures
        final(st)@ == emit_item(old(st)@, text@),
        final(st).inv(i),
        final(st).mode == old(st).mode,
{
    let n = st.out.len();
    push_all(&mut st.out, text);
    st.last = Some(n);
    st.repeated = false;
    st.at_start = false;
}

/// Appends what cannot be repeated.
fn emit_mark_in(st: &mut Reader, text: &[char], at_start: bool, Ghost(i): Ghost<int>)
    requires
        old(st).inv(i),
        old(st).mode is Body,
    ensures
        final(st)@ == emit_mark(old(st)@, text@, at_start),
        final(st).inv(i),
        final(st).mode == old(st).mode,
{
    push_all(&mut st.out, text);
    st.last = None;
    st.repeated = false;
    st.at_start = at_start;
}

/// Applies a repetition to the last item.
fn apply_rep_in(st: &mut Reader, op: &[char], Ghost(i): Ghost<int>)
    requires
        old(st).inv(i),
        old(st).last is Some,
    ensures
        final(st)@ == apply_rep(old(st)@, op@),
        final(st).inv(i),
        final(st).mode == old(st).mode,
        final(st).last == old(st).last,
{
    let s = st.last.unwrap();
    if st.repeated {
        let mut out: Vec<char> = Vec::new();
        let mut k: usize = 0;
        while k < s
            invariant
                s <= st.out@.len(),
                k <= s,
                out@ == st.out@.take(k as int),
            decreases s - k,
        {
            out.push(st.out[k]);
            assert(out@ =~= st.out@.take(k + 1));
            k = k + 1;
        }
        out.push('(');
        out.push('?');
        out.push(':');
        let ghost mid = out@;
        let n = st.out.len();
        while k < n
            invariant
                s <= k <= n,
                n == st.out@.len(),
                out@ == mid + st.out@.subrange(s as int, k as int),
            decreases n - k,
        {
            out.push(st.out[k]);
            assert(out@ =~= mid + st.out@.subrange(s as int, k + 1));
            k = k + 1;
        }
        out.push(')');
        push_all(&mut out, op);
        assert(out@ =~= st.out@.take(s as int) + seq!['(', '?', ':'] + st.out@.skip(s as int) + seq![')'] + op@);
        st.out = out;
    } else {
        push_all(&mut st.out, op);
    }
    st.repeated = true;
    st.at_start = false;
}

/// Reads from position `i`, between items.
fn body_step_in(p: &[char], i: usize, st: Reader) -> (r: Option<(usize, Reader)>)
    requires
        i < p@.len(),
        st.inv(i as int),
        st.mode is Body,
    ensures
        match r {
            None => body_step(p@, i as int, st@) is Fail,
            Some((j, next)) => body_step(p@, i as int, st@) == TrStep::Next(j as int, next@) && next.inv(
                j as int,
            ) && j <= p@.len(),
        },
{
    let n = p.len();
    let c = p[i];
    let mut st = st;
    let ghost old_st = st@;
    let gi = Ghost(i as int);
    if c == '\\' {
        if i + 1 >= n {
            return None;
        }
        let d = p[i + 1];
        if d == '(' {
            let pos = st.out.len();
            st.out.push('(');
            st.groups.push(pos);
            st.at_start = true;
            st.last = None;
            st.repeated = false;
            assert(st@.groups =~= old_st.groups.push(pos as int));
            assert(st@ == TrState {
                out: old_st.out.push('('),
                groups: old_st.groups.push(old_st.out.len() as int),
                at_start: true,
                last: None,
                repeated: false,
                ..old_st
            });
            Some((i + 2, st))
        } else if d == ')' {
            if st.groups.len() == 0 {
                return None;
            }
            let ghost gs = st.groups@;
            let g = st.groups.pop().unwrap();
            st.out.push(')');
            st.closed = st.closed + 1;
            st.at_start = false;
            st.last = Some(g);
            st.repeated = false;
            assert(st@.groups =~= old_st.groups.drop_last());
            assert(old_st.groups.last() == g as int);
            assert(forall|k: int| 0 <= k < st.groups@.len() ==> st.groups@[k] == gs[k]);
            Some((i + 2, st))
        } else if d == '|' {
            emit_mark_in(&mut st, &['|'], true, gi);
            assert(seq!['|'] =~= ['|']@);
            Some((i + 2, st))
        } else if d == '{' {
            if st.last.is_none() {
                return None;
            }
            st.mode = Mode::Interval(None, false, None);
            Some((i + 2, st))
        } else if d == '+' || d == '?' {
            if st.last.is_none() {
                emit_item_in(&mut st, &esc_chars(d), gi);
            } else {
                apply_rep_in(&mut st, &[d], gi);
                assert(seq![d] =~= [d]@);
            }
            Some((i + 2, st))
        } else if '1' <= d && d <= '9' {
            if (d as u32 - 48) as usize > st.closed {
                return None;
            }
            emit_item_in(&mut st, &['\\', d], gi);
            assert(seq!['\\', d] =~= ['\\', d]@);
            Some((i + 2, st))
        } else if d == 'w' || d == 'W' || d == 's' || d == 'S' {
            emit_item_in(&mut st, &['\\', d], gi);
            assert(seq!['\\', d] =~= ['\\', d]@);
            Some((i + 2, st))
        } else if d == 'b' || d == 'B' {
            emit_mark_in(&mut st, &['\\', d], false, gi);
            assert(seq!['\\', d] =~= ['\\', d]@);
            Some((i + 2, st))
        } else if d == '<' {
            emit_mark_in(&mut st, &chars_of("\\b(?=\\w)"), false, gi);
            Some((i + 2, st))
        } else if d == '>' {
            emit_mark_in(&mut st, &chars_of("\\b(?<=\\w)"), false, gi);
            Some((i + 2, st))
        } else if d == '`' {
            emit_mark_in(&mut st, &['\\', 'A'], false, gi);
            assert(seq!['\\', 'A'] =~= ['\\', 'A']@);
            Some((i + 2, st))
        } else if d == '\'' {
            emit_mark_in(&mut st, &['\\', 'z'], false, gi);
            assert(seq!['\\', 'z'] =~= ['\\', 'z']@);
            Some((i + 2, st))
        } else {
            emit_item_in(&mut st, &esc_chars(d), gi);
            Some((i + 2, st))
        }
    } else if c == '[' {
        if i + 1 < n && p[i + 1] == '^' {
            st.mode = Mode::Bracket(vec!['[', '^'], true);
            assert(st.mode@ == TrMode::Bracket(seq!['[', '^'], true));
            Some((i + 2, st))
        } else {
            let mut b: Vec<char> = Vec::new();
            b.push('[');
            assert(b@ =~= seq!['[']);
            st.mode = Mode::Bracket(b, true);
            Some((i + 1, st))
        }
    } else if c == '*' {
        if st.last.is_none() {
            emit_item_in(&mut st, &esc_chars(c), gi);
        } else {
            apply_rep_in(&mut st, &['*'], gi);
            assert(seq!['*'] =~= ['*']@);
        }
        Some((i + 1, st))
    } else if c == '^' && st.at_start {
        emit_mark_in(&mut st, &['^'], true, gi);
        assert(seq!['^'] =~= ['^']@);
        Some((i + 1, st))
    } else if c == '$' && (i + 1 == n || (i + 2 < n && p[i + 1] == '\\' && (p[i + 2] == ')' || p[i + 2] == '|'))) {
        emit_mark_in(&mut st, &['$'], false, gi);
        assert(seq!['$'] =~= ['$']@);
        Some((i + 1, st))
    } else if c == '.' {
        emit_item_in(&mut st, &['.'], gi);
        assert(seq!['.'] =~= ['.']@);
        Some((i + 1, st))
    } else {
        emit_item_in(&mut st, &esc_chars(c), gi);
        Some((i + 1, st))
    }
}

/// Reads from position `i` inside a bracket expression.
fn bracket_step_in(p: &[char], i: usize, st: Reader) -> (r: Option<(usize, Reader)>)
    requires
        i < p@.len(),
        st.inv(i as int),
        st.mode is Bracket,
    ensures
        match r {
            None => tr_step(p@, i as int, st@) is Fail,
            Some((j, next)) => tr_step(p@, i as int, st@) == TrStep::Next(j as int, next@) && next.inv(
                j as int,
            ) && j <= p@.len(),
        },
{
    let n = p.len();
    let c = p[i];
    let mut st = st;
    let ghost old_st = st@;
    let mut m = Mode::Body;
    std::mem::swap(&mut m, &mut st.mode);
    let (mut buf, first) = match m {
        Mode::Bracket(buf, first) => (buf, first),
        _ => {
            assert(false);
            return None;
        },
    };
    let ghost b0 = buf@;
    assert(old_st.mode == TrMode::Bracket(b0, first));
    if c == ']' && !first {
        buf.push(']');
        emit_item_in(&mut st, &buf, Ghost(i as int));
        Some((i + 1, st))
    } else if c == '[' && i + 1 < n && (p[i + 1] == ':' || p[i + 1] == '=' || p[i + 1] == '.') {
        st.mode = Mode::Class(p[i + 1], Vec::new(), buf);
        Some((i + 2, st))
    } else if n - i > 2 && p[i + 1] == '-' && p[i + 2] != ']' {
        let hi = p[i + 2];
        if c <= hi {
            push_esc(&mut buf, c);
            buf.push('-');
            push_esc(&mut buf, hi);
            assert(buf@ =~= b0 + esc(c) + seq!['-'] + esc(hi));
            st.mode = Mode::Bracket(buf, false);
            Some((i + 3, st))
        } else {
            None
        }
    } else {
        push_esc(&mut buf, c);
        st.mode = Mode::Bracket(buf, false);
        Some((i + 1, st))
    }
}

/// Whether `name` is a character class name.
fn class_name(name: &[char]) -> (b: bool)
    ensures
        b == is_class_name(name@),
{
    chars_equal(name, &chars_of("alnum")) || chars_equal(name, &chars_of("alpha")) || chars_equal(
        name,
        &chars_of("blank"),
    ) || chars_equal(name, &chars_of("cntrl")) || chars_equal(name, &chars_of("digit")) || chars_equal(
        name,
        &chars_of("graph"),
    ) || chars_equal(name, &chars_of("lower")) || chars_equal(name, &chars_of("print")) || chars_equal(
        name,
        &chars_of("punct"),
    ) || chars_equal(name, &chars_of("space")) || chars_equal(name, &chars_of("upper")) || chars_equal(
        name,
        &chars_of("xdigit"),
    )
}

/// Reads from position `i` inside `[:`, `[=` or `[.`.
fn class_step_in(p: &[char], i: usize, st: Reader) -> (r: Option<(usize, Reader)>)
    requires
        i < p@.len(),
        st.inv(i as int),
        st.mode is Class,
    ensures
        match r {
            None => tr_step(p@, i as int, st@) is Fail,
            Some((j, next)) => tr_step(p@, i as int, st@) == TrStep::Next(j as int, next@) && next.inv(
                j as int,
            ) && j <= p@.len(),
        },
{
    let n = p.len();
    let c = p[i];
    let mut st = st;
    let ghost old_st = st@;
    let mut m = Mode::Body;
    std::mem::swap(&mut m, &mut st.mode);
    let (kind, mut name, mut buf) = match m {
        Mode::Class(kind, name, buf) => (kind, name, buf),
        _ => {
            assert(false);
            return None;
        },
    };
    let ghost b0 = buf@;
    let ghost n0 = name@;
    assert(old_st.mode == TrMode::Class(kind, n0, b0));
    if c == kind && i + 1 < n && p[i + 1] == ']' {
        if kind == ':' {
            if class_name(&name) {
                buf.push('[');
                buf.push(':');
                push_all(&mut buf, &name);
                buf.push(':');
                buf.push(']');
                assert(buf@ =~= b0 + seq!['[', ':'] + n0 + seq![':', ']']);
                st.mode = Mode::Bracket(buf, false);
                Some((i + 2, st))
            } else {
                None
            }
        } else if name.len() == 1 {
            push_esc(&mut buf, name[0]);
            st.mode = Mode::Bracket(buf, false);
            Some((i + 2, st))
        } else {
            None
        }
    } else {
        name.push(c);
        st.mode = Mode::Class(kind, name, buf);
        Some((i + 1, st))
    }
}

/// The repetition operator of an interval.
fn interval_op_chars(lo: Option<u32>, comma: bool, hi: Option<u32>) -> (v: Vec<char>)
    ensures
        v@ == interval_op(bound_view(lo), comma, bound_view(hi)),
{
    let mut v: Vec<char> = Vec::new();
    v.push('{');
    push_dec(&mut v, match lo { Some(x) => x, None => 0 });
    let ghost a = v@;
    if comma {
        v.push(',');
        match hi {
            Some(x) => push_dec(&mut v, x),
            None => {},
        }
    }
    v.push('}');
    assert(v@ =~= interval_op(bound_view(lo), comma, bound_view(hi)));
    v
}

/// Reads from position `i` inside an interval.
fn interval_step_in(p: &[char], i: usize, st: Reader) -> (r: Option<(usize, Reader)>)
    requires
        i < p@.len(),
        st.inv(i as int),
        st.mode is Interval,
    ensures
        match r {
            None => tr_step(p@, i as int, st@) is Fail,
            Some((j, next)) => tr_step(p@, i as int, st@) == TrStep::Next(j as int, next@) && next.inv(
                j as int,
            ) && j <= p@.len(),
        },
{
    let n = p.len();
    let c = p[i];
    let mut st = st;
    let ghost old_st = st@;
    let (lo, comma, hi) = match st.mode {
        Mode::Interval(lo, comma, hi) => (lo, comma, hi),
        _ => {
            assert(false);
            return None;
        },
    };
    assert(old_st.mode == TrMode::Interval(bound_view(lo), comma, bound_view(hi)));
    if '0' <= c && c <= '9' {
        let d = c as u32 - 48;
        if !comma {
            let v = match lo { Some(x) => x, None => 0 } * 10 + d;
            assert(v as nat == more_digits(bound_view(lo), c));
            if v > 32767 {
                return None;
            }
            st.mode = Mode::Interval(Some(v), comma, hi);
            Some((i + 1, st))
        } else {
            let v = match hi { Some(x) => x, None => 0 } * 10 + d;
            assert(v as nat == more_digits(bound_view(hi), c));
            if v > 32767 {
                return None;
            }
            st.mode = Mode::Interval(lo, comma, Some(v));
            Some((i + 1, st))
        }
    } else if c == ',' && !comma {
        st.mode = Mode::Interval(lo, true, hi);
        Some((i + 1, st))
    } else if c == '\\' && i + 1 < n && p[i + 1] == '}' {
        if lo.is_none() && !comma {
            return None;
        }
        match (lo, hi) {
            (Some(a), Some(b)) => {
                if a > b {
                    return None;
                }
            },
            _ => {},
        }
        let op = interval_op_chars(lo, comma, hi);
        apply_rep_in(&mut st, &op, Ghost(i as int));
        st.mode = Mode::Body;
        Some((i + 2, st))
    } else {
        None
    }
}

/// Writes the basic regular expression `p` in the engine's syntax; `None`
/// when `p` is not well formed.
pub fn translate_pattern(p: &[char]) -> (r: Option<Vec<char>>)
    ensures
        match r {
            Some(v) => translate(p@) == Some(v@),
            None => translate(p@) is None,
        },
{
    let n = p.len();
    let mut st = Reader {
        out: Vec::new(),
        groups: Vec::new(),
        closed: 0,
        at_start: true,
        last: None,
        repeated: false,
        mode: Mode::Body,
    };
    assert(st@.groups =~= Seq::<int>::empty());
    assert(st@ == tr_start());
    let mut i: usize = 0;
    while i < n
        invariant
            n == p@.len(),
            i <= n,
            st.inv(i as int),
            translate(p@) == tr_from(p@, i as int, st@),
        decreases n - i,
    {
        let r = match st.mode {
            Mode::Body => body_step_in(p, i, st),
            Mode::Bracket(_, _) => bracket_step_in(p, i, st),
            Mode::Class(_, _, _) => class_step_in(p, i, st),
            Mode::Interval(_, _, _) => interval_step_in(p, i, st),
        };
        match r {
            None => return None,
            Some((j, next)) => {
                i = j;
                st = next;
            },
        }
    }
    match st.mode {
        Mode::Body => {
            if st.groups.len() == 0 {
                Some(st.out)
            } else {
                None
            }
        },
        _ => None,
    }
}

} // verus!
