//! The toy-list application carried over the streaming cipher: lines of
//! `NxName` entries separated by commas; the reply names the entry with
//! the largest count.
use vstd::prelude::*;

use crate::numfmt::dec_digits;
use crate::numfmt::u64_to_string;

verus! {

/// Relies on `char::is_whitespace`: the result depends on the character
/// alone.
pub uninterp spec fn white_of(c: char) -> bool;

/// Relies on `char::is_whitespace`: the result depends on the character
/// alone.
#[verifier::external_body]
fn char_is_whitespace(c: char) -> (r: bool)
    ensures
        r == white_of(c),
{
    c.is_whitespace()
}

/// The sequence with leading whitespace dropped.
pub open spec fn trim_left(s: Seq<char>) -> Seq<char>
    decreases s.len(),
{
    if s.len() > 0 && white_of(s[0]) {
        trim_left(s.subrange(1, s.len() as int))
    } else {
        s
    }
}

/// The sequence with trailing whitespace dropped.
pub open spec fn trim_right(s: Seq<char>) -> Seq<char>
    decreases s.len(),
{
    if s.len() > 0 && white_of(s.last()) {
        trim_right(s.subrange(0, s.len() - 1))
    } else {
        s
    }
}

/// The sequence with whitespace dropped on both sides.
pub open spec fn trim_spec(s: Seq<char>) -> Seq<char> {
    trim_right(trim_left(s))
}

/// One toy entry: how many, and the name as it stood in the entry.
#[derive(Debug)]
pub struct Toy {
    pub amount: u32,
    pub name: String,
}

impl PartialEq for Toy {
    /// Toys compare by amount alone.
    fn eq(&self, other: &Self) -> (r: bool) {
        self.amount == other.amount
    }
}

impl vstd::std_specs::cmp::PartialEqSpecImpl for Toy {
    open spec fn obeys_eq_spec() -> bool {
        true
    }

    open spec fn eq_spec(&self, other: &Self) -> bool {
        self.amount == other.amount
    }
}

impl PartialOrd for Toy {
    /// Toys order by amount alone.
    fn partial_cmp(&self, other: &Self) -> (r: Option<core::cmp::Ordering>) {
        if self.amount < other.amount {
            Some(core::cmp::Ordering::Less)
        } else if self.amount == other.amount {
            Some(core::cmp::Ordering::Equal)
        } else {
            Some(core::cmp::Ordering::Greater)
        }
    }
}

impl vstd::std_specs::cmp::PartialOrdSpecImpl for Toy {
    open spec fn obeys_partial_cmp_spec() -> bool {
        true
    }

    open spec fn partial_cmp_spec(&self, other: &Self) -> Option<core::cmp::Ordering> {
        if self.amount < other.amount {
            Some(core::cmp::Ordering::Less)
        } else if self.amount == other.amount {
            Some(core::cmp::Ordering::Equal)
        } else {
            Some(core::cmp::Ordering::Greater)
        }
    }
}

impl Toy {
    /// The reply line for this toy: the count, an `x`, a space, the name
    /// without surrounding whitespace, and a newline.
    pub fn to_display_string(&self) -> (r: String)
        ensures
            r@ == dec_digits(self.amount as int) + "x "@ + trim_spec(self.name@) + "\n"@,
    {
        let mut s = u64_to_string(self.amount as u64);
        s.append("x ");
        let trimmed = trim_str(self.name.as_str());
        s.append(trimmed.as_str());
        s.append("\n");
        s
    }
}

/// The name with surrounding whitespace removed.
fn trim_str(s: &str) -> (r: String)
    ensures
        r@ == trim_spec(s@),
{
    let n = s.unicode_len();
    proof {
        assert(s@.subrange(0, n as int) =~= s@);
    }
    let mut a: usize = 0;
    while a < n
        invariant
            n == s@.len(),
            a <= n,
            forall|k: int| 0 <= k < a ==> white_of(s@[k]),
            trim_left(s@) == trim_left(s@.subrange(a as int, n as int)),
        ensures
            n == s@.len(),
            a <= n,
            forall|k: int| 0 <= k < a ==> white_of(s@[k]),
            trim_left(s@) == trim_left(s@.subrange(a as int, n as int)),
            a < n ==> !white_of(s@[a as int]),
        decreases n - a,
    {
        let ghost pre = s@.subrange(a as int, n as int);
        let c = s.get_char(a);
        if !char_is_whitespace(c) {
            break;
        }
        a += 1;
        proof {
            assert(pre[0] == s@[a - 1]);
            assert(pre.subrange(1, pre.len() as int) =~= s@.subrange(a as int, n as int));
        }
    }
    let mut b: usize = n;
    while b > a
        invariant
            n == s@.len(),
            a <= b <= n,
            a < n ==> !white_of(s@[a as int]),
            forall|k: int| b <= k < n ==> white_of(s@[k]),
            trim_right(s@.subrange(a as int, n as int)) == trim_right(
                s@.subrange(a as int, b as int),
            ),
        ensures
            a <= b <= n,
            b > a ==> !white_of(s@[(b - 1) as int]),
            trim_right(s@.subrange(a as int, n as int)) == trim_right(
                s@.subrange(a as int, b as int),
            ),
        decreases b,
    {
        let ghost pre = s@.subrange(a as int, b as int);
        let c = s.get_char(b - 1);
        if !char_is_whitespace(c) {
            break;
        }
        b -= 1;
        proof {
            assert(pre.last() == s@[b as int]);
            assert(pre.subrange(0, pre.len() - 1) =~= s@.subrange(a as int, b as int));
        }
    }
    proof {
        if a < n {
            assert(trim_left(s@.subrange(a as int, n as int)) == s@.subrange(a as int, n as int));
        } else {
            assert(s@.subrange(a as int, n as int).len() == 0);
            assert(trim_left(s@.subrange(a as int, n as int)) == s@.subrange(a as int, n as int));
        }
        let mid = s@.subrange(a as int, b as int);
        if a < b {
            assert(!white_of(mid.last()));
            assert(trim_right(mid) == mid);
        } else {
            assert(mid.len() == 0);
            assert(trim_right(mid) == mid);
        }
        assert(trim_spec(s@) == s@.subrange(a as int, b as int));
    }
    let piece = s.substring_char(a, b);
    piece.to_owned()
}

/// A decimal digit.
pub open spec fn is_digit(c: char) -> bool {
    '0' <= c && c <= '9'
}

/// The first occurrence of `c` in `s` within `[from, to)`.
pub open spec fn spec_find(s: Seq<char>, c: char, from: int, to: int) -> Option<int>
    decreases to - from,
{
    if from < 0 || from >= to || to > s.len() {
        None
    } else if s[from] == c {
        Some(from)
    } else {
        spec_find(s, c, from + 1, to)
    }
}

/// The value of the digit string `s[from..to]`, most significant first.
pub open spec fn digits_val(s: Seq<char>, from: int, to: int) -> int
    decreases to - from,
{
    if from >= to {
        0
    } else {
        digits_val(s, from, to - 1) * 10 + (s[to - 1] as int - 48)
    }
}

/// The toy parsed from the entry `s[from..to]`: the digits before the
/// first `x` as the count and everything after it as the name; nothing
/// when there is no `x`, no digits, a non-digit, or a count too large.
pub open spec fn parse_entry(s: Seq<char>, from: int, to: int) -> Option<(u32, Seq<char>)> {
    match spec_find(s, 'x', from, to) {
        None => None,
        Some(p) => {
            if p > from && (forall|k: int| from <= k < p ==> is_digit(#[trigger] s[k]))
                && digits_val(s, from, p) <= u32::MAX {
                Some(((digits_val(s, from, p)) as u32, s.subrange(p + 1, to)))
            } else {
                None
            }
        },
    }
}

/// A found occurrence lies inside the range it was sought in.
pub proof fn lemma_spec_find_bounds(s: Seq<char>, c: char, from: int, to: int)
    ensures
        spec_find(s, c, from, to) matches Some(p) ==> from <= p < to <= s.len(),
    decreases to - from,
{
    if !(from < 0 || from >= to || to > s.len()) && s[from] != c {
        lemma_spec_find_bounds(s, c, from + 1, to);
    }
}

/// The toys parsed from the comma-separated entries of `s[from..]`, in
/// order, unparsable entries skipped.
pub open spec fn toys_of(s: Seq<char>, from: int) -> Seq<(u32, Seq<char>)>
    decreases s.len() - from,
    via toys_of_decreases
{
    if from < 0 || from > s.len() {
        Seq::empty()
    } else {
        match spec_find(s, ',', from, s.len() as int) {
            None => match parse_entry(s, from, s.len() as int) {
                None => Seq::empty(),
                Some(t) => seq![t],
            },
            Some(p) => (match parse_entry(s, from, p) {
                None => Seq::empty(),
                Some(t) => seq![t],
            }) + toys_of(s, p + 1),
        }
    }
}

#[via_fn]
proof fn toys_of_decreases(s: Seq<char>, from: int) {
    lemma_spec_find_bounds(s, ',', from, s.len() as int);
}

/// The amount-and-name pairs of a toy list, for contracts.
pub open spec fn toy_views(r: Seq<Toy>) -> Seq<(u32, Seq<char>)> {
    r.map_values(|t: Toy| (t.amount, t.name@))
}


/// The first occurrence of `c` within `[from, to)` of the text.
fn find_in_str(s: &str, c: char, from: usize, to: usize) -> (r: Option<usize>)
    requires
        to <= s@.len(),
    ensures
        match r {
            Some(p) => spec_find(s@, c, from as int, to as int) == Some(p as int),
            None => spec_find(s@, c, from as int, to as int) is None,
        },
{
    let mut i: usize = from;
    if from >= to {
        return None;
    }
    while i < to
        invariant
            from <= i <= to <= s@.len(),
            spec_find(s@, c, from as int, to as int) == spec_find(s@, c, i as int, to as int),
        decreases to - i,
    {
        if s.get_char(i) == c {
            return Some(i);
        }
        i += 1;
    }
    None
}

/// A longer digit string has at least the value of its prefix.
proof fn lemma_digits_monotone(s: Seq<char>, from: int, k: int, to: int)
    requires
        from <= k <= to <= s.len(),
        forall|j: int| from <= j < to ==> is_digit(#[trigger] s[j]),
    ensures
        digits_val(s, from, to) >= digits_val(s, from, k),
        digits_val(s, from, k) >= 0,
    decreases to - k,
{
    if k == to {
        lemma_digits_nonneg(s, from, k);
    } else {
        lemma_digits_monotone(s, from, k, to - 1);
        lemma_digits_nonneg(s, from, to - 1);
        assert(digits_val(s, from, to) == digits_val(s, from, to - 1) * 10 + (s[to - 1] as int
            - 48));
        assert(digits_val(s, from, to - 1) * 10 >= digits_val(s, from, to - 1)) by (nonlinear_arith)
            requires
                digits_val(s, from, to - 1) >= 0,
        ;
    }
}

/// A digit string's value is not negative.
proof fn lemma_digits_nonneg(s: Seq<char>, from: int, to: int)
    requires
        forall|j: int| from <= j < to ==> is_digit(#[trigger] s[j]),
    ensures
        digits_val(s, from, to) >= 0,
    decreases to - from,
{
    if from < to {
        lemma_digits_nonneg(s, from, to - 1);
    }
}

/// Reads the decimal value of `s[from..to]`: the value when the range is
/// nonempty, all digits, and fits; nothing otherwise.
fn parse_amount(s: &str, from: usize, to: usize) -> (r: Option<u32>)
    requires
        from <= to <= s@.len(),
    ensures
        match r {
            Some(v) => from < to && (forall|k: int|
                from <= k < to ==> is_digit(#[trigger] s@[k])) && digits_val(
                s@,
                from as int,
                to as int,
            ) == v,
            None => !(from < to && (forall|k: int|
                from <= k < to ==> is_digit(#[trigger] s@[k])) && digits_val(
                s@,
                from as int,
                to as int,
            ) <= u32::MAX),
        },
{
    if from >= to {
        return None;
    }
    let mut val: u64 = 0;
    let mut k: usize = from;
    while k < to
        invariant
            from <= k <= to <= s@.len(),
            forall|j: int| from <= j < k ==> is_digit(#[trigger] s@[j]),
            digits_val(s@, from as int, k as int) <= u32::MAX ==> val == digits_val(
                s@,
                from as int,
                k as int,
            ),
            digits_val(s@, from as int, k as int) > u32::MAX ==> val == 0x1_0000_0000,
            val <= 0x1_0000_0000,
        decreases to - k,
    {
        let c = s.get_char(k);
        if !(c >= '0' && c <= '9') {
            return None;
        }
        let d = (c as u32) - 48;
        proof {
            lemma_digits_nonneg(s@, from as int, k as int);
            assert(digits_val(s@, from as int, k + 1) == digits_val(s@, from as int, k as int)
                * 10 + (s@[k as int] as int - 48));
        }
        if val > 0xffff_ffff {
            val = 0x1_0000_0000;
            proof {
                let dv = digits_val(s@, from as int, k as int);
                assert(dv > u32::MAX);
                assert(dv * 10 >= dv) by (nonlinear_arith)
                    requires
                        dv >= 0,
                ;
                assert(s@[k as int] as int - 48 >= 0);
                assert(digits_val(s@, from as int, k + 1) > u32::MAX);
            }
        } else {
            proof {
                assert(digits_val(s@, from as int, k as int) <= u32::MAX);
                assert(val == digits_val(s@, from as int, k as int));
            }
            val = val * 10 + (d as u64);
            proof {
                assert(val == digits_val(s@, from as int, k + 1));
            }
            if val > 0xffff_ffff {
                val = 0x1_0000_0000;
            }
        }
        k += 1;
    }
    if val > 0xffff_ffff {
        proof {
            lemma_digits_nonneg(s@, from as int, to as int);
        }
        None
    } else {
        Some(val as u32)
    }
}

/// Parses one `NxName` entry spanning `s[from..to]`.
fn parse_one_entry(s: &str, from: usize, to: usize) -> (r: Option<Toy>)
    requires
        from <= to <= s@.len(),
    ensures
        match r {
            Some(t) => parse_entry(s@, from as int, to as int) == Some((t.amount, t.name@)),
            None => parse_entry(s@, from as int, to as int) is None,
        },
{
    match find_in_str(s, 'x', from, to) {
        None => None,
        Some(p) => {
            proof {
                lemma_spec_find_bounds(s@, 'x', from as int, to as int);
            }
            match parse_amount(s, from, p) {
                None => None,
                Some(v) => {
                    let name = s.substring_char(p + 1, to).to_owned();
                    Some(Toy { amount: v, name })
                },
            }
        },
    }
}

/// Parses the comma-separated toy entries of `s[from..]`, skipping
/// entries that do not parse.
pub fn parse_toys_from(s: &str, from: usize) -> (r: Vec<Toy>)
    requires
        from <= s@.len(),
    ensures
        toy_views(r@) == toys_of(s@, from as int),
    decreases s@.len() - from,
{
    let n = s.unicode_len();
    let mut out: Vec<Toy> = Vec::new();
    match find_in_str(s, ',', from, n) {
        None => {
            match parse_one_entry(s, from, n) {
                None => {
                    proof {
                        assert(toy_views(out@) =~= toys_of(s@, from as int));
                    }
                },
                Some(t) => {
                    out.push(t);
                    proof {
                        assert(toy_views(out@) =~= toys_of(s@, from as int));
                    }
                },
            }
        },
        Some(p) => {
            proof {
                lemma_spec_find_bounds(s@, ',', from as int, n as int);
            }
            match parse_one_entry(s, from, p) {
                None => {},
                Some(t) => {
                    out.push(t);
                },
            }
            let mut rest = parse_toys_from(s, p + 1);
            let ghost head = out@;
            out.append(&mut rest);
            proof {
                assert(toy_views(out@) =~= toy_views(head) + toys_of(s@, p + 1));
                assert(toy_views(out@) =~= toys_of(s@, from as int));
            }
        },
    }
    out
}

/// Parses a whole line of toy entries.
pub fn parse_toys(s: &str) -> (r: Vec<Toy>)
    ensures
        toy_views(r@) == toys_of(s@, 0),
{
    parse_toys_from(s, 0)
}

/// The index of the toy with the largest count, earliest among equals;
/// nothing exactly when the list is empty.
pub fn largest_toy(toys: &Vec<Toy>) -> (r: Option<usize>)
    ensures
        match r {
            Some(i) => i < toys@.len() && (forall|j: int|
                0 <= j < toys@.len() ==> (#[trigger] toys@[j]).amount <= toys@[i as int].amount)
                && (forall|j: int| 0 <= j < i ==> (#[trigger] toys@[j]).amount < toys@[i as int].amount),
            None => toys@.len() == 0,
        },
{
    if toys.len() == 0 {
        return None;
    }
    let mut best: usize = 0;
    let mut i: usize = 1;
    while i < toys.len()
        invariant
            best < i <= toys@.len(),
            forall|j: int| 0 <= j < i ==> (#[trigger] toys@[j]).amount <= toys@[best as int].amount,
            forall|j: int| 0 <= j < best ==> (#[trigger] toys@[j]).amount < toys@[best as int].amount,
        decreases toys@.len() - i,
    {
        if toys[i].amount > toys[best].amount {
            best = i;
        }
        i += 1;
    }
    Some(best)
}

/// The reply for one decoded line: the display string of the entry with
/// the largest count, or nothing when no entry parses.
pub fn reply_for_line(text: &str) -> (r: Option<String>)
    ensures
        match r {
            None => toys_of(text@, 0).len() == 0,
            Some(reply) => exists|i: int|
                #![trigger toys_of(text@, 0)[i]]
                {
                    let tv = toys_of(text@, 0);
                    &&& 0 <= i < tv.len()
                    &&& (forall|j: int| 0 <= j < tv.len() ==> (#[trigger] tv[j]).0 <= tv[i].0)
                    &&& reply@ == dec_digits(tv[i].0 as int) + "x "@ + trim_spec(tv[i].1) + "
"@
                },
        },
{
    let toys = parse_toys(text);
    match largest_toy(&toys) {
        None => None,
        Some(i) => {
            let reply = toys[i].to_display_string();
            proof {
                let tv = toys_of(text@, 0);
                assert(tv[i as int] == (toys@[i as int].amount, toys@[i as int].name@));
                assert forall|j: int| 0 <= j < tv.len() implies (#[trigger] tv[j]).0
                    <= tv[i as int].0 by {
                    assert(tv[j] == (toys@[j].amount, toys@[j].name@));
                }
            }
            Some(reply)
        },
    }
}

} // verus!
