//! Parsing of the chat commands and small message-handling decisions.
//!
//! The surrounding process receives raw message text; the rules for
//! reading the learn and say commands out of it, for deciding whether
//! a message is too old to answer, and for assembling a full user
//! name live here.

use vstd::prelude::*;

use crate::numbers::hex_val;
use crate::strutil::{chars_of, string_from_chars};
use crate::text::is_space_char;

verus! {

/// Whether `pat` occurs in `s` at position `i`.
pub open spec fn match_at(s: Seq<char>, pat: Seq<char>, i: int) -> bool {
    0 <= i && i + pat.len() <= s.len() && s.subrange(i, i + pat.len() as int) == pat
}

/// The last position at or below `from` where `pat` occurs.
pub open spec fn find_last(s: Seq<char>, pat: Seq<char>, from: int) -> Option<int>
    decreases from + 1,
{
    if from < 0 {
        None
    } else if match_at(s, pat, from) {
        Some(from)
    } else {
        find_last(s, pat, from - 1)
    }
}

/// The first position at or above `from` where `pat` occurs.
pub open spec fn find_first(s: Seq<char>, pat: Seq<char>, from: int) -> Option<int>
    decreases s.len() + 1 - from,
{
    if from < 0 || from + pat.len() > s.len() {
        None
    } else if match_at(s, pat, from) {
        Some(from)
    } else {
        find_first(s, pat, from + 1)
    }
}

/// `s` without leading separator characters.
pub open spec fn trim_start(s: Seq<char>) -> Seq<char>
    decreases s.len(),
{
    if s.len() > 0 && is_space_char(s[0]) {
        trim_start(s.drop_first())
    } else {
        s
    }
}

/// `s` without trailing separator characters.
pub open spec fn trim_end(s: Seq<char>) -> Seq<char>
    decreases s.len(),
{
    if s.len() > 0 && is_space_char(s.last()) {
        trim_end(s.drop_last())
    } else {
        s
    }
}

/// `s` without leading and trailing separator characters.
pub open spec fn trim_spec(s: Seq<char>) -> Seq<char> {
    trim_end(trim_start(s))
}

/// Every character is a decimal digit, and there is at least one.
pub open spec fn all_digits(s: Seq<char>) -> bool {
    s.len() > 0 && forall|k: int| 0 <= k < s.len() ==> hex_val(#[trigger] s[k]) < 10
}

/// The value of a decimal digit string.
pub open spec fn digits_val(s: Seq<char>) -> int
    decreases s.len(),
{
    if s.len() == 0 {
        0int
    } else {
        digits_val(s.drop_last()) * 10 + hex_val(s.last())
    }
}

/// How a count parses: an optional leading `+`, then decimal digits,
/// and a value that fits the machine.
pub open spec fn parse_usize_spec(s: Seq<char>) -> Option<int> {
    let body = if s.len() > 0 && s[0] == '+' {
        s.drop_first()
    } else {
        s
    };
    if all_digits(body) && digits_val(body) <= usize::MAX {
        Some(digits_val(body))
    } else {
        None
    }
}

/// What a say command asks for: the text after the last `/say `
/// occurrence read as an order, or order 1 when that text is not a
/// count; `None` when the command has no argument at all.
pub open spec fn say_order_spec(s: Seq<char>) -> Option<int> {
    let pat = seq!['/', 's', 'a', 'y', ' '];
    match find_last(s, pat, s.len() - pat.len()) {
        Option::None => None,
        Option::Some(i) => Some(
            match parse_usize_spec(s.skip(i + pat.len() as int)) {
                Option::Some(v) => v,
                Option::None => 1int,
            },
        ),
    }
}

/// What a learn command asks for: the text after the first `/learn `
/// occurrence is trimmed and split at its first space into a source
/// location and a user name.  `None` when the command has no argument
/// or names no user.
pub open spec fn learn_command_spec(s: Seq<char>) -> Option<(Seq<char>, Seq<char>)> {
    let pat = seq!['/', 'l', 'e', 'a', 'r', 'n', ' '];
    match find_first(s, pat, 0) {
        Option::None => None,
        Option::Some(i) => {
            let rest = trim_spec(s.skip(i + pat.len() as int));
            match find_first(rest, seq![' '], 0) {
                Option::None => None,
                Option::Some(j) => Some(
                    (trim_spec(rest.take(j)), rest.skip(j + 1)),
                ),
            }
        },
    }
}

/// A digit string's value is non-negative and only grows as digits
/// are appended.
proof fn lemma_digits_val_bounds(s: Seq<char>, j: int)
    requires
        0 <= j <= s.len(),
    ensures
        digits_val(s) >= digits_val(s.take(j)) >= 0,
    decreases s.len(),
{
    if s.len() == 0 {
        assert(s.take(j) =~= s);
    } else if j == s.len() {
        assert(s.take(j) =~= s);
        lemma_digits_val_bounds(s.drop_last(), s.len() - 1);
        assert(s.drop_last().take(s.len() - 1) =~= s.drop_last());
        assert(digits_val(s) >= digits_val(s.drop_last()));
    } else {
        lemma_digits_val_bounds(s.drop_last(), j);
        assert(s.drop_last().take(j) =~= s.take(j));
        assert(digits_val(s.drop_last()) >= 0);
        assert(digits_val(s) >= digits_val(s.drop_last()));
    }
}

/// Exec form of `match_at` for a pattern given as chars.
fn matches_at(cs: &Vec<char>, pat: &Vec<char>, i: usize) -> (r: bool)
    requires
        i + pat@.len() <= cs@.len(),
    ensures
        r == match_at(cs@, pat@, i as int),
{
    let total = cs.len();
    let mut k: usize = 0;
    while k < pat.len()
        invariant
            k <= pat@.len(),
            i + pat@.len() <= cs@.len(),
            cs@.len() <= usize::MAX,
            forall|j: int| 0 <= j < k ==> cs@[i + j] == pat@[j],
        decreases pat@.len() - k,
    {
        if cs[i + k] != pat[k] {
            proof {
                assert(cs@.subrange(i as int, i + pat@.len() as int)[k as int] != pat@[k as int]);
            }
            return false;
        }
        k = k + 1;
    }
    proof {
        assert(cs@.subrange(i as int, i + pat@.len() as int) =~= pat@);
    }
    true
}

/// Parses a count: an optional `+`, then decimal digits fitting the
/// machine.
fn parse_usize_chars(cs: &Vec<char>) -> (r: Option<usize>)
    ensures
        match r {
            Option::Some(v) => parse_usize_spec(cs@) == Some(v as int),
            Option::None => parse_usize_spec(cs@) is None,
        },
{
    let start: usize = if cs.len() > 0 && cs[0] == '+' {
        1
    } else {
        0
    };
    let ghost body = if cs@.len() > 0 && cs@[0] == '+' {
        cs@.drop_first()
    } else {
        cs@
    };
    proof {
        assert(body =~= cs@.skip(start as int));
    }
    if start >= cs.len() {
        proof {
            assert(!all_digits(body));
        }
        return None;
    }
    let mut acc: usize = 0;
    let mut k: usize = start;
    while k < cs.len()
        invariant
            start <= k <= cs@.len(),
            start < cs@.len(),
            body == cs@.skip(start as int),
            body == (if cs@.len() > 0 && cs@[0] == '+' {
                cs@.drop_first()
            } else {
                cs@
            }),
            forall|j: int| 0 <= j < k - start ==> hex_val(#[trigger] body[j]) < 10,
            acc == digits_val(body.take(k - start)),
        decreases cs@.len() - k,
    {
        let d = crate::numbers::hex_val_of(cs[k]);
        proof {
            assert(body[k - start] == cs@[k as int]);
            assert(body.take(k - start + 1).drop_last() =~= body.take(k - start));
            assert(body.take(k - start + 1).last() == body[k - start]);
        }
        if d >= 10 {
            proof {
                assert(hex_val(body[k - start]) >= 10);
                assert(!all_digits(body));
            }
            return None;
        }
        if acc > (usize::MAX - d as usize) / 10 {
            proof {
                let m = (usize::MAX - d) as int;
                vstd::arithmetic::div_mod::lemma_fundamental_div_mod(m, 10);
                assert(acc * 10 + d > usize::MAX);
                assert(digits_val(body.take(k - start + 1)) > usize::MAX);
                lemma_digits_val_bounds(body, k - start + 1);
                if all_digits(body) {
                    assert(digits_val(body) > usize::MAX);
                }
            }
            return None;
        }
        acc = acc * 10 + d as usize;
        k = k + 1;
    }
    proof {
        assert(body.take(body.len() as int) =~= body);
        assert(all_digits(body));
    }
    Some(acc)
}

/// Reads a say command: the requested chain order, defaulting to 1
/// when the argument is not a count; `None` when the command carries
/// no argument.
pub fn parse_say_order(msg: &str) -> (r: Option<usize>)
    ensures
        match r {
            Option::Some(v) => say_order_spec(msg@) == Some(v as int),
            Option::None => say_order_spec(msg@) is None,
        },
{
    let cs = chars_of(msg);
    let mut pat: Vec<char> = Vec::new();
    pat.push('/');
    pat.push('s');
    pat.push('a');
    pat.push('y');
    pat.push(' ');
    proof {
        assert(pat@ =~= seq!['/', 's', 'a', 'y', ' ']);
    }
    if cs.len() < pat.len() {
        return None;
    }
    let mut i: usize = cs.len() - pat.len();
    let mut found: Option<usize> = None;
    loop
        invariant_except_break
            i <= cs@.len() - pat@.len(),
            pat@ == seq!['/', 's', 'a', 'y', ' '],
            cs@ == msg@,
            cs@.len() >= pat@.len(),
            found is None,
            find_last(cs@, pat@, cs@.len() - pat@.len()) == find_last(cs@, pat@, i as int),
        ensures
            pat@ == seq!['/', 's', 'a', 'y', ' '],
            cs@ == msg@,
            match found {
                Option::Some(f) => find_last(cs@, pat@, cs@.len() - pat@.len()) == Some(f as int)
                    && f + pat@.len() <= cs@.len(),
                Option::None => find_last(cs@, pat@, cs@.len() - pat@.len()) is None,
            },
        decreases i,
    {
        if matches_at(&cs, &pat, i) {
            found = Some(i);
            break ;
        }
        if i == 0 {
            proof {
                assert(find_last(cs@, pat@, -1) is None);
            }
            break ;
        }
        i = i - 1;
    }
    let f = match found {
        Option::Some(f) => f,
        Option::None => {
            return None;
        },
    };
    let mut tail: Vec<char> = Vec::new();
    let mut k: usize = f + 5;
    proof {
        assert(tail@ =~= cs@.subrange(f + 5, f + 5));
    }
    while k < cs.len()
        invariant
            f + 5 <= k <= cs@.len(),
            tail@ == cs@.subrange(f + 5, k as int),
        decreases cs@.len() - k,
    {
        tail.push(cs[k]);
        proof {
            assert(tail@ =~= cs@.subrange(f + 5, k + 1));
        }
        k = k + 1;
    }
    proof {
        assert(tail@ =~= cs@.skip(f + 5));
    }
    match parse_usize_chars(&tail) {
        Option::Some(v) => Some(v),
        Option::None => Some(1),
    }
}

/// Trims separator characters from both ends.
pub fn trim_chars(cs: &Vec<char>) -> (r: Vec<char>)
    ensures
        r@ == trim_spec(cs@),
{
    let mut a: usize = 0;
    proof {
        assert(cs@.skip(0) =~= cs@);
    }
    while a < cs.len() && is_space_exec(cs[a])
        invariant
            a <= cs@.len(),
            trim_start(cs@) == trim_start(cs@.skip(a as int)),
            a < cs@.len() ==> cs@.skip(a as int)[0] == cs@[a as int],
        decreases cs@.len() - a,
    {
        proof {
            assert(cs@.skip(a as int).drop_first() =~= cs@.skip(a + 1));
        }
        a = a + 1;
    }
    proof {
        if a < cs@.len() {
            assert(trim_start(cs@) =~= cs@.skip(a as int));
        } else {
            assert(cs@.skip(a as int) =~= Seq::<char>::empty());
            assert(trim_start(cs@) =~= cs@.skip(a as int));
        }
    }
    let mut b: usize = cs.len();
    proof {
        assert(cs@.skip(a as int).take(b - a) =~= cs@.skip(a as int));
    }
    while b > a && is_space_exec(cs[b - 1])
        invariant
            a <= b <= cs@.len(),
            trim_start(cs@) == cs@.skip(a as int),
            trim_end(cs@.skip(a as int)) == trim_end(cs@.skip(a as int).take(b - a)),
        decreases b,
    {
        proof {
            let cur = cs@.skip(a as int).take(b - a);
            assert(cur.last() == cs@[b - 1]);
            assert(cur.drop_last() =~= cs@.skip(a as int).take(b - a - 1));
        }
        b = b - 1;
    }
    proof {
        let cur = cs@.skip(a as int).take(b - a);
        if b > a {
            assert(cur.last() == cs@[b - 1]);
            assert(trim_end(cur) =~= cur);
        } else {
            assert(cur =~= Seq::<char>::empty());
            assert(trim_end(cur) =~= cur);
        }
    }
    let mut out: Vec<char> = Vec::new();
    let mut k: usize = a;
    while k < b
        invariant
            a <= k <= b <= cs@.len(),
            out@ == cs@.subrange(a as int, k as int),
        decreases b - k,
    {
        out.push(cs[k]);
        proof {
            assert(out@ =~= cs@.subrange(a as int, k + 1));
        }
        k = k + 1;
    }
    proof {
        assert(out@ =~= cs@.skip(a as int).take(b - a));
    }
    out
}

/// Exec form of `text::is_space_char` (local alias to keep call sites
/// short).
fn is_space_exec(c: char) -> (r: bool)
    ensures
        r == is_space_char(c),
{
    crate::text::is_space(c)
}

/// Reads a learn command: the source location and the user name it
/// names; `None` when the command carries no argument or no user
/// name.
pub fn parse_learn_command(msg: &str) -> (r: Option<(String, String)>)
    ensures
        match r {
            Option::Some(p) => learn_command_spec(msg@) == Some((p.0@, p.1@)),
            Option::None => learn_command_spec(msg@) is None,
        },
{
    let cs = chars_of(msg);
    let mut pat: Vec<char> = Vec::new();
    pat.push('/');
    pat.push('l');
    pat.push('e');
    pat.push('a');
    pat.push('r');
    pat.push('n');
    pat.push(' ');
    proof {
        assert(pat@ =~= seq!['/', 'l', 'e', 'a', 'r', 'n', ' ']);
    }
    let mut i: usize = 0;
    let mut found: Option<usize> = None;
    loop
        invariant_except_break
            i <= cs@.len(),
            pat@ == seq!['/', 'l', 'e', 'a', 'r', 'n', ' '],
            cs@ == msg@,
            found is None,
            find_first(cs@, pat@, 0) == find_first(cs@, pat@, i as int),
        ensures
            pat@ == seq!['/', 'l', 'e', 'a', 'r', 'n', ' '],
            cs@ == msg@,
            match found {
                Option::Some(f) => find_first(cs@, pat@, 0) == Some(f as int)
                    && f + pat@.len() <= cs@.len(),
                Option::None => find_first(cs@, pat@, 0) is None,
            },
        decreases cs@.len() - i,
    {
        if i > cs.len() || cs.len() - i < pat.len() {
            break ;
        }
        if matches_at(&cs, &pat, i) {
            found = Some(i);
            break ;
        }
        i = i + 1;
    }
    let f = match found {
        Option::Some(f) => f,
        Option::None => {
            return None;
        },
    };
    let n = cs.len();
    let mut tail: Vec<char> = Vec::new();
    let mut k: usize = f + 7;
    while k < cs.len()
        invariant
            f + 7 <= k <= cs@.len(),
            tail@ == cs@.subrange(f + 7, k as int),
        decreases cs@.len() - k,
    {
        tail.push(cs[k]);
        proof {
            assert(tail@ =~= cs@.subrange(f + 7, k + 1));
        }
        k = k + 1;
    }
    proof {
        assert(tail@ =~= cs@.skip(f + 7));
    }
    let rest = trim_chars(&tail);
    let mut j: usize = 0;
    let mut sp: Option<usize> = None;
    loop
        invariant_except_break
            j <= rest@.len(),
            sp is None,
            find_first(rest@, seq![' '], 0) == find_first(rest@, seq![' '], j as int),
        ensures
            match sp {
                Option::Some(v) => find_first(rest@, seq![' '], 0) == Some(v as int) && v
                    < rest@.len(),
                Option::None => find_first(rest@, seq![' '], 0) is None,
            },
        decreases rest@.len() - j,
    {
        if j >= rest.len() {
            break ;
        }
        if rest[j] == ' ' {
            proof {
                assert(rest@.subrange(j as int, j + 1) =~= seq![' ']);
            }
            sp = Some(j);
            break ;
        }
        proof {
            if match_at(rest@, seq![' '], j as int) {
                assert(rest@.subrange(j as int, j + 1)[0] == ' ');
            }
        }
        j = j + 1;
    }
    let v = match sp {
        Option::Some(v) => v,
        Option::None => {
            return None;
        },
    };
    let mut left: Vec<char> = Vec::new();
    let mut k2: usize = 0;
    while k2 < v
        invariant
            k2 <= v <= rest@.len(),
            left@ == rest@.subrange(0, k2 as int),
        decreases v - k2,
    {
        left.push(rest[k2]);
        proof {
            assert(left@ =~= rest@.subrange(0, k2 + 1));
        }
        k2 = k2 + 1;
    }
    proof {
        assert(left@ =~= rest@.take(v as int));
    }
    let uri = trim_chars(&left);
    let rn = rest.len();
    let mut right: Vec<char> = Vec::new();
    let mut k3: usize = v + 1;
    proof {
        assert(right@ =~= rest@.subrange(v + 1, v + 1));
    }
    while k3 < rest.len()
        invariant
            v + 1 <= k3 <= rest@.len(),
            right@ == rest@.subrange(v + 1, k3 as int),
        decreases rest@.len() - k3,
    {
        right.push(rest[k3]);
        proof {
            assert(right@ =~= rest@.subrange(v + 1, k3 + 1));
        }
        k3 = k3 + 1;
    }
    proof {
        assert(right@ =~= rest@.skip(v + 1));
    }
    Some((string_from_chars(&uri), string_from_chars(&right)))
}

/// A participant's full name: the first name, then the last name
/// after a space where one is present.
pub fn full_name(first: &str, last: Option<&str>) -> (r: String)
    ensures
        r@ == (match last {
            Option::Some(l) => first@ + seq![' '] + l@,
            Option::None => first@,
        }),
{
    match last {
        Option::Some(l) => {
            let mut out = String::from_str(first);
            out.append(" ");
            out.append(l);
            proof {
                reveal_strlit(" ");
                assert(out@ =~= first@ + seq![' '] + l@);
            }
            out
        },
        Option::None => String::from_str(first),
    }
}

/// Whether a message is too old to answer: its timestamp lies more
/// than the timeout before `now` (a timestamp after `now` is not
/// stale).
pub fn is_stale(now: u64, message_date: u64, timeout: u64) -> (r: bool)
    ensures
        r == (message_date <= now && now - message_date > timeout),
{
    message_date <= now && now - message_date > timeout
}

} // verus!
