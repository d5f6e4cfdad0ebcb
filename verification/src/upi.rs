//! Verified helpers for the text command surface: the line grammar and
//! line trimming.  The session loop itself performs terminal reading and
//! printing and lives outside the library.
//!
//! A line names a node as `r`, or `r:0:` followed by colon-separated
//! tokens: `c` or `x` for a passive move, `f` for a fold, `b<n>` or
//! `R<n>` for a bet or raise to the cumulative chip total `n`, and a
//! two-character card such as `8d` for a dealt card.

use vstd::prelude::*;
use crate::cards::{char_to_rank, char_to_suit, spec_card_at};
use crate::postfloptree::LineStep;

verus! {

/// Split at colons, accumulating the current segment: the segments of
/// `s` from position `i` on, with `cur` already read.
pub open spec fn split_from(s: Seq<char>, i: int, cur: Seq<char>) -> Seq<Seq<char>>
    decreases s.len() - i,
{
    if i < 0 || i >= s.len() {
        seq![cur]
    } else if s[i] == ':' {
        seq![cur] + split_from(s, i + 1, Seq::empty())
    } else {
        split_from(s, i + 1, cur.push(s[i]))
    }
}

/// The colon-separated segments of a string.
pub open spec fn spec_split(s: Seq<char>) -> Seq<Seq<char>> {
    split_from(s, 0, Seq::empty())
}

/// The value of a decimal digit character.
pub open spec fn digit_of(c: char) -> Option<int> {
    if c == '0' {
        Some(0int)
    } else if c == '1' {
        Some(1int)
    } else if c == '2' {
        Some(2int)
    } else if c == '3' {
        Some(3int)
    } else if c == '4' {
        Some(4int)
    } else if c == '5' {
        Some(5int)
    } else if c == '6' {
        Some(6int)
    } else if c == '7' {
        Some(7int)
    } else if c == '8' {
        Some(8int)
    } else if c == '9' {
        Some(9int)
    } else {
        None
    }
}

/// A nonempty string of decimal digits.
pub open spec fn all_digits(s: Seq<char>) -> bool {
    s.len() >= 1 && forall|i: int| 0 <= i < s.len() ==> digit_of(#[trigger] s[i]) is Some
}

/// The number a string of decimal digits denotes.
pub open spec fn digits_val(s: Seq<char>) -> int
    decreases s.len(),
{
    if s.len() == 0 {
        0
    } else {
        digits_val(s.drop_last()) * 10 + (match digit_of(s.last()) {
            Some(d) => d,
            None => 0,
        })
    }
}

/// A digit string's value never shrinks as digits are appended.
pub proof fn lemma_digits_prefix(s: Seq<char>, i: int)
    requires
        0 <= i <= s.len(),
    ensures
        0 <= digits_val(s.take(i)) <= digits_val(s),
    decreases s.len(),
{
    if s.len() == 0 {
        assert(s.take(i) =~= s);
    } else if i == s.len() {
        assert(s.take(i) =~= s);
        lemma_digits_prefix(s.drop_last(), s.len() - 1);
        assert(s.drop_last().take(s.len() - 1) =~= s.drop_last());
    } else {
        assert(s.take(i) =~= s.drop_last().take(i));
        lemma_digits_prefix(s.drop_last(), i);
    }
}

/// The step one line token denotes, if any.
pub open spec fn spec_tok_step(t: Seq<char>) -> Option<LineStep> {
    if t.len() == 1 && (t[0] == 'c' || t[0] == 'x') {
        Some(LineStep::Passive)
    } else if t.len() == 1 && t[0] == 'f' {
        Some(LineStep::Fold)
    } else if t.len() >= 2 && (t[0] == 'b' || t[0] == 'R') {
        if all_digits(t.skip(1)) && digits_val(t.skip(1)) <= u32::MAX {
            Some(LineStep::BetTo(digits_val(t.skip(1)) as u32))
        } else {
            None
        }
    } else if t.len() == 2 {
        match spec_card_at(t, 0) {
            Some(c) => Some(LineStep::Card(c)),
            None => None,
        }
    } else {
        None
    }
}

/// The steps a whole line denotes: `r` is the root; otherwise the line
/// must read `r:0` followed by one valid token per further segment.
pub open spec fn spec_parse_line(s: Seq<char>) -> Option<Seq<LineStep>> {
    if s == seq!['r'] {
        Some(Seq::empty())
    } else {
        let parts = spec_split(s);
        if parts.len() >= 2 && parts[0] == seq!['r'] && parts[1] == seq!['0'] && (forall|i: int|
            2 <= i < parts.len() ==> spec_tok_step(#[trigger] parts[i]) is Some) {
            Some(Seq::new((parts.len() - 2) as nat, |i: int| spec_tok_step(parts[i + 2])->Some_0))
        } else {
            None
        }
    }
}

/// The characters of a string, one by one.
fn str_chars(s: &str) -> (r: Vec<char>)
    ensures
        r@ == s@,
{
    let n = s.unicode_len();
    let mut out: Vec<char> = Vec::new();
    let mut i: usize = 0;
    while i < n
        invariant
            0 <= i <= n,
            n == s@.len(),
            out@ == s@.take(i as int),
        decreases n - i,
    {
        out.push(s.get_char(i));
        proof {
            assert(s@.take(i + 1) =~= s@.take(i as int).push(s@[i as int]));
        }
        i = i + 1;
    }
    proof {
        assert(s@.take(n as int) =~= s@);
    }
    out
}

/// Split a character list at colons.
fn split_colon_chars(cs: &Vec<char>) -> (r: Vec<Vec<char>>)
    ensures
        r@.map_values(|v: Vec<char>| v@) == spec_split(cs@),
{
    let mut out: Vec<Vec<char>> = Vec::new();
    let mut cur: Vec<char> = Vec::new();
    let n = cs.len();
    let mut i: usize = 0;
    while i < n
        invariant
            0 <= i <= n,
            n == cs@.len(),
            out@.map_values(|v: Vec<char>| v@) + split_from(cs@, i as int, cur@) == spec_split(
                cs@,
            ),
        decreases n - i,
    {
        let ghost out_pre = out@;
        let ghost cur_pre = cur@;
        let c = cs[i];
        if c == ':' {
            out.push(cur);
            cur = Vec::new();
            proof {
                assert(out@.map_values(|v: Vec<char>| v@) =~= out_pre.map_values(
                    |v: Vec<char>| v@,
                ).push(cur_pre));
                assert(split_from(cs@, i as int, cur_pre) == seq![cur_pre] + split_from(
                    cs@,
                    i + 1,
                    Seq::empty(),
                ));
                assert(out_pre.map_values(|v: Vec<char>| v@).push(cur_pre) + split_from(
                    cs@,
                    i + 1,
                    Seq::empty(),
                ) =~= out_pre.map_values(|v: Vec<char>| v@) + (seq![cur_pre] + split_from(
                    cs@,
                    i + 1,
                    Seq::empty(),
                )));
            }
        } else {
            cur.push(c);
        }
        i = i + 1;
    }
    let ghost out_pre = out@;
    let ghost cur_pre = cur@;
    out.push(cur);
    proof {
        assert(out@.map_values(|v: Vec<char>| v@) =~= out_pre.map_values(|v: Vec<char>| v@).push(
            cur_pre,
        ));
        assert(split_from(cs@, n as int, cur_pre) == seq![cur_pre]);
        assert(out_pre.map_values(|v: Vec<char>| v@).push(cur_pre) =~= out_pre.map_values(
            |v: Vec<char>| v@,
        ) + seq![cur_pre]);
    }
    out
}

/// Parse a nonempty digit suffix into a chip total.
fn parse_digits(t: &Vec<char>, from: usize) -> (r: Option<u32>)
    requires
        from <= t@.len(),
    ensures
        match r {
            Some(v) => all_digits(t@.skip(from as int)) && digits_val(t@.skip(from as int))
                <= u32::MAX && v == digits_val(t@.skip(from as int)),
            None => !(all_digits(t@.skip(from as int)) && digits_val(t@.skip(from as int))
                <= u32::MAX),
        },
{
    let ghost ts = t@.skip(from as int);
    let n = t.len();
    if from == n {
        proof {
            assert(ts.len() == 0);
        }
        return None;
    }
    let mut val: u32 = 0;
    let mut j: usize = from;
    while j < n
        invariant
            from <= j <= n,
            n == t@.len(),
            ts == t@.skip(from as int),
            forall|k: int| 0 <= k < j - from ==> digit_of(#[trigger] ts[k]) is Some,
            val == digits_val(ts.take(j - from)),
        decreases n - j,
    {
        let d: u32 = match t[j] {
            '0' => 0,
            '1' => 1,
            '2' => 2,
            '3' => 3,
            '4' => 4,
            '5' => 5,
            '6' => 6,
            '7' => 7,
            '8' => 8,
            '9' => 9,
            _ => {
                proof {
                    assert(ts[j - from] == t@[j as int]);
                    assert(digit_of(ts[j - from]) is None);
                }
                return None;
            },
        };
        proof {
            assert(ts[j - from] == t@[j as int]);
            assert(digit_of(ts[j - from]) == Some(d as int));
            assert(ts.take(j - from + 1).drop_last() =~= ts.take(j - from));
            assert(ts.take(j - from + 1).last() == ts[j - from]);
        }
        if val > (u32::MAX - d) / 10 {
            proof {
                assert(val * 10 + d > u32::MAX) by (nonlinear_arith)
                    requires val > (u32::MAX - d) / 10, d <= 9, val >= 0
                ;
                lemma_digits_prefix(ts, j - from + 1);
            }
            return None;
        }
        proof {
            assert(val * 10 + d <= u32::MAX) by (nonlinear_arith)
                requires val <= (u32::MAX - d) / 10, d <= 9, val >= 0
            ;
        }
        val = val * 10 + d;
        j = j + 1;
    }
    proof {
        assert(ts.take(n - from) =~= ts);
    }
    Some(val)
}

/// The step one token denotes.
fn tok_step(t: &Vec<char>) -> (r: Option<LineStep>)
    ensures
        r == spec_tok_step(t@),
{
    let n = t.len();
    if n == 1 && (t[0] == 'c' || t[0] == 'x') {
        Some(LineStep::Passive)
    } else if n == 1 && t[0] == 'f' {
        Some(LineStep::Fold)
    } else if n >= 2 && (t[0] == 'b' || t[0] == 'R') {
        match parse_digits(t, 1) {
            Some(v) => Some(LineStep::BetTo(v)),
            None => None,
        }
    } else if n == 2 {
        let rank = char_to_rank(t[0]);
        let suit = char_to_suit(t[1]);
        match (rank, suit) {
            (Some(rv), Some(sv)) => Some(LineStep::Card(rv * 4 + sv)),
            _ => {
                proof {
                    assert(spec_card_at(t@, 0) is None);
                }
                None
            },
        }
    } else {
        None
    }
}

/// Parse a whole line of the text protocol into walker steps.  `r` is the
/// root; any other line must read `r:0` followed by valid tokens.  Every
/// dealt card in the result is a card identifier below 52.
pub fn parse_line_steps(line: &str) -> (r: Option<Vec<LineStep>>)
    ensures
        match r {
            Some(v) => {
                &&& spec_parse_line(line@) == Some(v@)
                &&& forall|t: int|
                    0 <= t < v@.len() ==> ((#[trigger] v@[t]) matches LineStep::Card(c) ==> c
                        < 52)
            },
            None => spec_parse_line(line@) is None,
        },
{
    let cs = str_chars(line);
    if cs.len() == 1 && cs[0] == 'r' {
        proof {
            assert(line@ =~= seq!['r']);
        }
        let empty: Vec<LineStep> = Vec::new();
        proof {
            assert(empty@ =~= Seq::<LineStep>::empty());
        }
        return Some(empty);
    }
    proof {
        assert(line@ != seq!['r']);
    }
    let parts = split_colon_chars(&cs);
    let ghost pm = parts@.map_values(|v: Vec<char>| v@);
    if parts.len() < 2 {
        return None;
    }
    let p0 = &parts[0];
    if !(p0.len() == 1 && p0[0] == 'r') {
        proof {
            assert(pm[0] != seq!['r']);
        }
        return None;
    }
    let p1 = &parts[1];
    if !(p1.len() == 1 && p1[0] == '0') {
        proof {
            assert(pm[1] != seq!['0']);
        }
        return None;
    }
    proof {
        assert(pm[0] =~= seq!['r']);
        assert(pm[1] =~= seq!['0']);
    }
    let np = parts.len();
    let mut out: Vec<LineStep> = Vec::new();
    let mut i: usize = 2;
    while i < np
        invariant
            2 <= i <= np,
            np == parts@.len(),
            pm == parts@.map_values(|v: Vec<char>| v@),
            pm == spec_split(line@),
            line@ != seq!['r'],
            pm.len() >= 2,
            pm[0] == seq!['r'],
            pm[1] == seq!['0'],
            out@.len() == i - 2,
            forall|k: int| 2 <= k < i ==> spec_tok_step(#[trigger] pm[k]) is Some,
            forall|k: int| 0 <= k < i - 2 ==> #[trigger] out@[k] == spec_tok_step(pm[k + 2])->Some_0,
            forall|k: int|
                0 <= k < out@.len() ==> ((#[trigger] out@[k]) matches LineStep::Card(c) ==> c
                    < 52),
        decreases np - i,
    {
        match tok_step(&parts[i]) {
            Some(st) => {
                proof {
                    assert(pm[i as int] == parts@[i as int]@);
                    match st {
                        LineStep::Card(c) => {
                            assert(spec_card_at(pm[i as int], 0) is Some);
                            assert(c < 52);
                        },
                        _ => {},
                    }
                }
                out.push(st);
            },
            None => {
                proof {
                    assert(spec_tok_step(pm[i as int]) is None);
                }
                return None;
            },
        }
        i = i + 1;
    }
    proof {
        assert(out@ =~= Seq::new((pm.len() - 2) as nat, |k: int| spec_tok_step(pm[k + 2])->Some_0));
    }
    Some(out)
}

/// What a line looks like once its trailing newline is gone.
pub open spec fn spec_trimmed(s: Seq<char>) -> Seq<char> {
    if s.len() > 0 && s.last() == '\n' {
        if s.len() > 1 && s[s.len() - 2] == '\r' {
            s.take(s.len() - 2)
        } else {
            s.take(s.len() - 1)
        }
    } else {
        s
    }
}

/// Strip one trailing newline, and a carriage return before it, in place.
pub fn trim_newline(s: &mut String)
    ensures
        final(s)@ == spec_trimmed(old(s)@),
{
    let n = s.as_str().unicode_len();
    if n > 0 && s.as_str().get_char(n - 1) == '\n' {
        if n > 1 && s.as_str().get_char(n - 2) == '\r' {
            let t = s.as_str().substring_char(0, n - 2).to_owned();
            *s = t;
        } else {
            let t = s.as_str().substring_char(0, n - 1).to_owned();
            *s = t;
        }
    }
}

} // verus!
