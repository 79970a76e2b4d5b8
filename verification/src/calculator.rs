//! The pocket calculator's keys and display: operator symbols, thousands
//! separators, and what the digit, point, backspace, sign and operator keys
//! do to the display and the expression line. The arithmetic on the numbers
//! is the caller's.

use vstd::prelude::*;
use vstd::string::StrSliceExecFns;

use crate::text::{push_chars, string_from_chars};

verus! {

/// A binary operator key.
#[derive(Clone, Copy, PartialEq, Eq, Structural, Debug)]
pub enum Op {
    Add,
    Sub,
    Mul,
    Div,
}

impl Op {
    /// The symbol shown in the expression line.
    pub fn symbol(&self) -> (s: &'static str)
        ensures
            *self == Op::Add ==> s@ == "+"@,
            *self == Op::Sub ==> s@ == "−"@,
            *self == Op::Mul ==> s@ == "×"@,
            *self == Op::Div ==> s@ == "÷"@,
    {
        match self {
            Op::Add => "+",
            Op::Sub => "−",
            Op::Mul => "×",
            Op::Div => "÷",
        }
    }
}

/// `d` with a comma before every group of three characters counted from the
/// right.
pub open spec fn group3(d: Seq<char>) -> Seq<char>
    decreases d.len(),
{
    if d.len() <= 3 {
        d
    } else {
        group3(d.subrange(0, d.len() - 3)) + seq![','] + d.subrange(d.len() - 3, d.len() as int)
    }
}

/// Index of the first '.' of `s` at or after `i`, or the length.
pub open spec fn dot_from(s: Seq<char>, i: int) -> int
    decreases s.len() - i,
{
    if i >= s.len() {
        s.len() as int
    } else if s[i] == '.' {
        i
    } else {
        dot_from(s, i + 1)
    }
}

pub open spec fn error_text() -> Seq<char> {
    seq!['E', 'r', 'r', 'o', 'r']
}

/// The display with thousands separators: "Error" stays as it is; otherwise
/// an optional leading '-', the integer part grouped by threes, and the
/// decimal part from the '.' on, unchanged.
pub open spec fn with_commas(s: Seq<char>) -> Seq<char> {
    if s == error_text() {
        s
    } else {
        let neg = s.len() > 0 && s[0] == '-';
        let rest = if neg {
            s.drop_first()
        } else {
            s
        };
        let k = dot_from(rest, 0);
        (if neg {
            seq!['-']
        } else {
            seq![]
        }) + group3(rest.subrange(0, k)) + rest.subrange(k, rest.len() as int)
    }
}

proof fn lemma_dot_from(s: Seq<char>, i: int)
    requires
        0 <= i <= s.len(),
    ensures
        i <= dot_from(s, i) <= s.len(),
        forall|j: int| i <= j < dot_from(s, i) ==> s[j] != '.',
        dot_from(s, i) < s.len() ==> s[dot_from(s, i)] == '.',
    decreases s.len() - i,
{
    if i < s.len() && s[i] != '.' {
        lemma_dot_from(s, i + 1);
    }
}

/// Reversed grouping: `r` read backwards, with a comma after every third
/// character.
spec fn rev_grouped(d: Seq<char>, n: int) -> Seq<char>
    decreases n,
{
    if n <= 0 {
        seq![]
    } else {
        rev_grouped(d, n - 1) + (if n - 1 > 0 && (n - 1) % 3 == 0 {
            seq![',']
        } else {
            seq![]
        }) + seq![d[d.len() - n]]
    }
}

proof fn lemma_rev_grouped(d: Seq<char>)
    ensures
        rev_grouped(d, d.len() as int).reverse() == group3(d),
    decreases d.len(),
{
    let n = d.len() as int;
    if n <= 3 {
        lemma_rev_grouped_small(d, n);
        assert(rev_grouped(d, n).reverse() =~= d);
    } else {
        let head = d.subrange(0, n - 3);
        let last = d.subrange(n - 3, n);
        lemma_rev_grouped(head);
        lemma_rev_grouped_shift(d, n);
        let a = last.reverse();
        let b = rev_grouped(head, n - 3);
        assert(rev_grouped(d, n) == a + seq![','] + b);
        assert((a + seq![','] + b).reverse() =~= b.reverse() + seq![','] + a.reverse());
        assert(a.reverse() =~= last);
    }
}

proof fn lemma_rev_grouped_small(d: Seq<char>, n: int)
    requires
        0 <= n <= d.len(),
        n <= 3,
    ensures
        rev_grouped(d, n) =~= d.subrange(d.len() - n, d.len() as int).reverse(),
    decreases n,
{
    if n > 0 {
        lemma_rev_grouped_small(d, n - 1);
    }
}

/// After its first three characters and a comma, the reversed grouping of
/// `d` goes on as that of `d` without its last three characters.
#[verifier::spinoff_prover]
proof fn lemma_rev_grouped_shift(d: Seq<char>, t: int)
    requires
        3 <= t <= d.len(),
    ensures
        rev_grouped(d, t) =~= d.subrange(d.len() - 3, d.len() as int).reverse() + if t > 3 {
            seq![','] + rev_grouped(d.subrange(0, d.len() - 3), t - 3)
        } else {
            seq![]
        },
    decreases t,
{
    let n = d.len() as int;
    let head = d.subrange(0, n - 3);
    let rev3 = d.subrange(n - 3, n).reverse();
    if t == 3 {
        lemma_rev_grouped_small(d, 3);
    } else {
        lemma_rev_grouped_shift(d, t - 1);
        let last: Seq<char> = seq![d[n - t]];
        assert(head[head.len() - (t - 3)] == d[n - t]);
        let sep: Seq<char> = if t - 1 > 0 && (t - 1) % 3 == 0 {
            seq![',']
        } else {
            seq![]
        };
        let sep_head: Seq<char> = if t - 4 > 0 && (t - 4) % 3 == 0 {
            seq![',']
        } else {
            seq![]
        };
        assert(rev_grouped(d, t) == rev_grouped(d, t - 1) + sep + last);
        assert(rev_grouped(head, t - 3) == rev_grouped(head, t - 4) + sep_head + last);
        if t == 4 {
            assert(rev_grouped(d, 3) =~= rev3);
            assert(sep =~= seq![',']);
            assert(rev_grouped(head, 0) =~= Seq::<char>::empty());
            assert(sep_head =~= Seq::<char>::empty());
            assert(rev3 + sep + last =~= rev3 + (seq![','] + (Seq::<char>::empty() + sep_head + last)));
        } else {
            assert((t - 4) % 3 == (t - 1) % 3);
            assert(sep == sep_head);
            assert(rev_grouped(d, t - 1) =~= rev3 + (seq![','] + rev_grouped(head, t - 4)));
            assert(rev3 + (seq![','] + rev_grouped(head, t - 4)) + sep + last =~= rev3 + (seq![','] + (rev_grouped(
                head,
                t - 4,
            ) + sep_head + last)));
        }
    }
}

/// Adds thousands separators to the display text.
pub fn add_commas(s: &str) -> (r: String)
    ensures
        r@ == with_commas(s@),
{
    let n = s.unicode_len();
    let mut chars: Vec<char> = Vec::new();
    let mut i: usize = 0;
    while i < n
        invariant
            i <= n,
            n == s@.len(),
            chars@ == s@.subrange(0, i as int),
        decreases n - i,
    {
        chars.push(s.get_char(i));
        i += 1;
        assert(chars@ =~= s@.subrange(0, i as int));
    }
    assert(chars@ =~= s@);
    let is_error = n == 5 && chars[0] == 'E' && chars[1] == 'r' && chars[2] == 'r' && chars[3] == 'o' && chars[4]
        == 'r';
    if is_error {
        assert(s@ =~= error_text());
        return string_from_chars(&chars);
    }
    assert(s@ != error_text()) by {
        if s@ == error_text() {
            assert(s@[0] == 'E' && s@[1] == 'r' && s@[2] == 'r' && s@[3] == 'o' && s@[4] == 'r');
        }
    }
    let neg = n > 0 && chars[0] == '-';
    let start: usize = if neg {
        1
    } else {
        0
    };
    let ghost rest = s@.subrange(start as int, n as int);
    assert(rest =~= if neg {
        s@.drop_first()
    } else {
        s@
    });
    let mut dot = start;
    while dot < n && chars[dot] != '.'
        invariant
            start <= dot <= n,
            n == s@.len(),
            chars@ == s@,
            rest == s@.subrange(start as int, n as int),
            forall|j: int| start <= j < dot ==> s@[j] != '.',
        decreases n - dot,
    {
        dot += 1;
    }
    proof {
        lemma_dot_from(rest, 0);
        let k = dot_from(rest, 0);
        if k < dot - start {
            assert(rest[k] == s@[start + k]);
        }
        if dot - start < k {
            assert(rest[dot - start] == s@[dot as int]);
        }
        assert(k == dot - start);
    }
    let mut out: Vec<char> = Vec::new();
    if neg {
        out.push('-');
    }
    let ghost digits = s@.subrange(start as int, dot as int);
    let mut grouped_rev: Vec<char> = Vec::new();
    let mut t: usize = 0;
    let len = dot - start;
    while t < len
        invariant
            t <= len,
            len == dot - start,
            start <= dot <= n,
            n == s@.len(),
            chars@ == s@,
            digits == s@.subrange(start as int, dot as int),
            grouped_rev@ == rev_grouped(digits, t as int),
        decreases len - t,
    {
        if t > 0 && t % 3 == 0 {
            grouped_rev.push(',');
        }
        grouped_rev.push(chars[dot - 1 - t]);
        t += 1;
        assert(grouped_rev@ =~= rev_grouped(digits, t as int));
    }
    proof {
        lemma_rev_grouped(digits);
    }
    let mut j: usize = grouped_rev.len();
    let ghost base = out@;
    while j > 0
        invariant
            j <= grouped_rev@.len(),
            out@ == base + grouped_rev@.subrange(j as int, grouped_rev@.len() as int).reverse(),
        decreases j,
    {
        j -= 1;
        out.push(grouped_rev[j]);
        assert(out@ =~= base + grouped_rev@.subrange(j as int, grouped_rev@.len() as int).reverse());
    }
    assert(grouped_rev@.subrange(0, grouped_rev@.len() as int) =~= grouped_rev@);
    let mut k: usize = dot;
    let ghost mid = out@;
    while k < n
        invariant
            dot <= k <= n,
            n == s@.len(),
            chars@ == s@,
            out@ == mid + s@.subrange(dot as int, k as int),
        decreases n - k,
    {
        out.push(chars[k]);
        k += 1;
        assert(out@ =~= mid + s@.subrange(dot as int, k as int));
    }
    proof {
        assert(digits =~= rest.subrange(0, dot - start));
        assert(s@.subrange(dot as int, n as int) =~= rest.subrange(dot - start, rest.len() as int));
        assert(out@ =~= with_commas(s@));
    }
    string_from_chars(&out)
}

/// `s` without its commas.
pub open spec fn strip_commas(s: Seq<char>) -> Seq<char>
    decreases s.len(),
{
    if s.len() == 0 {
        s
    } else {
        strip_commas(s.drop_last()) + if s.last() == ',' {
            Seq::<char>::empty()
        } else {
            seq![s.last()]
        }
    }
}

proof fn lemma_strip_add(a: Seq<char>, b: Seq<char>)
    ensures
        strip_commas(a + b) == strip_commas(a) + strip_commas(b),
    decreases b.len(),
{
    if b.len() == 0 {
        assert(a + b =~= a);
        assert(strip_commas(a) + strip_commas(b) =~= strip_commas(a));
    } else {
        lemma_strip_add(a, b.drop_last());
        assert((a + b).drop_last() =~= a + b.drop_last());
        assert((a + b).last() == b.last());
        let tail: Seq<char> = if b.last() == ',' {
            Seq::empty()
        } else {
            seq![b.last()]
        };
        assert(strip_commas(a) + strip_commas(b.drop_last()) + tail =~= strip_commas(a) + (strip_commas(
            b.drop_last(),
        ) + tail));
    }
}

proof fn lemma_strip_plain(s: Seq<char>)
    requires
        forall|i: int| 0 <= i < s.len() ==> s[i] != ',',
    ensures
        strip_commas(s) == s,
    decreases s.len(),
{
    if s.len() > 0 {
        lemma_strip_plain(s.drop_last());
        assert(s.drop_last().push(s.last()) =~= s);
        assert(strip_commas(s.drop_last()) + seq![s.last()] =~= s.drop_last().push(s.last()));
    }
}

proof fn lemma_strip_group3(d: Seq<char>)
    requires
        forall|i: int| 0 <= i < d.len() ==> d[i] != ',',
    ensures
        strip_commas(group3(d)) == d,
    decreases d.len(),
{
    if d.len() <= 3 {
        lemma_strip_plain(d);
    } else {
        let head = d.subrange(0, d.len() - 3);
        let tail = d.subrange(d.len() - 3, d.len() as int);
        lemma_strip_group3(head);
        lemma_strip_plain(tail);
        lemma_strip_add(group3(head) + seq![','], tail);
        lemma_strip_add(group3(head), seq![',']);
        assert(strip_commas(seq![',']) =~= Seq::<char>::empty()) by {
            let c: Seq<char> = seq![','];
            assert(c.drop_last() =~= Seq::<char>::empty());
            assert(c.last() == ',');
            assert(strip_commas(c.drop_last()) =~= Seq::<char>::empty());
        }
        assert(head + Seq::<char>::empty() + tail =~= d);
    }
}

/// Law: the separators are all that the display adds. Taking the commas out
/// of what `add_commas` gives back the text it was given (a display never
/// holds commas of its own).
pub proof fn commas_only_separate(s: Seq<char>)
    requires
        forall|i: int| 0 <= i < s.len() ==> s[i] != ',',
    ensures
        strip_commas(with_commas(s)) == s,
{
    if s == error_text() {
        lemma_strip_plain(s);
    } else {
        let neg = s.len() > 0 && s[0] == '-';
        let rest = if neg {
            s.drop_first()
        } else {
            s
        };
        lemma_dot_from(rest, 0);
        let k = dot_from(rest, 0);
        let sign: Seq<char> = if neg {
            seq!['-']
        } else {
            seq![]
        };
        let int_part = rest.subrange(0, k);
        let dec = rest.subrange(k, rest.len() as int);
        lemma_strip_group3(int_part);
        lemma_strip_plain(dec);
        lemma_strip_plain(sign);
        lemma_strip_add(sign + group3(int_part), dec);
        lemma_strip_add(sign, group3(int_part));
        assert(sign + int_part + dec =~= s);
    }
}

// ---------------------------------------------------------------------------
// Key entry
// ---------------------------------------------------------------------------

/// What an operator key asks of the numbers.
#[derive(Clone, Copy, PartialEq, Eq, Structural, Debug)]
pub enum OperatorStep {
    /// After an error: nothing.
    Ignore,
    /// The display becomes the first operand.
    TakeFirst,
    /// Right after another operator: only the operator changes.
    Swap,
    /// The pending calculation is done first; its result becomes the first
    /// operand unless it failed.
    EvaluateThenTake,
}

/// What an equals key asks of the numbers.
#[derive(Clone, Copy, PartialEq, Eq, Structural, Debug)]
pub enum EqualsStep {
    /// After an error, or with nothing to compute: nothing.
    Ignore,
    /// Compute the pending operation; the second operand is the display, or
    /// the first operand again when no second number was typed.
    Evaluate { second_from_display: bool, op: Option<Op> },
    /// Repeat the last operation on the result shown.
    Repeat { last: Op },
}

/// What the percent key asks of the numbers.
#[derive(Clone, Copy, PartialEq, Eq, Structural, Debug)]
pub enum PercentStep {
    Ignore,
    /// `current` is the first operand while waiting for the second, else the
    /// display; the result is `first * current / 100` for `+` and `-`, and
    /// `current / 100` otherwise.
    Apply { current_is_first: bool, of_first: bool },
}

/// Where the calculator is in a calculation.
#[derive(Clone, Copy, PartialEq, Eq, Structural, Debug)]
pub enum CalcState {
    InputFirst,
    InputSecond,
    ShowResult,
}

/// What the keys have built up: the text on the display, the expression
/// line above it, the pending operator and the state of the entry. The
/// numbers computed with are kept by the caller.
pub struct Entry {
    pub display: String,
    pub operator: Option<Op>,
    /// The operator of the last equals, repeated by the next equals.
    pub last_operator: Option<Op>,
    pub state: CalcState,
    pub has_decimal: bool,
    pub error: bool,
    pub waiting_for_second: bool,
    pub expression: String,
}

/// The character of digit `d`.
pub open spec fn digit_char(d: u8) -> char {
    (48 + d) as char
}

pub open spec fn zero_text() -> Seq<char> {
    seq!['0']
}

pub open spec fn symbol_of(op: Op) -> Seq<char> {
    match op {
        Op::Add => "+"@,
        Op::Sub => "−"@,
        Op::Mul => "×"@,
        Op::Div => "÷"@,
    }
}

pub open spec fn is_blank(c: char) -> bool {
    c == ' ' || c == '\t' || c == '\n' || c == '\x0C' || c == '\r'
}

/// Index of the last character among the first `n` that is not blank, or
/// -1.
pub open spec fn last_solid(s: Seq<char>, n: int) -> int
    decreases n,
{
    if n <= 0 {
        -1
    } else if !is_blank(s[n - 1]) {
        n - 1
    } else {
        last_solid(s, n - 1)
    }
}

/// The expression with its operator (its last character that is not
/// blank, and what follows it) replaced by `op`.
pub open spec fn operator_swapped(e: Seq<char>, op: Op) -> Seq<char> {
    let i = last_solid(e, e.len() as int);
    (if i >= 0 {
        e.subrange(0, i)
    } else {
        e
    }) + symbol_of(op)
}

proof fn lemma_last_solid(s: Seq<char>, n: int)
    requires
        0 <= n <= s.len(),
    ensures
        -1 <= last_solid(s, n) < n,
        last_solid(s, n) >= 0 ==> !is_blank(s[last_solid(s, n)]),
    decreases n,
{
    if n > 0 {
        lemma_last_solid(s, n - 1);
    }
}

/// Whether the character before position `i` is blank.
fn blank_before(e: &str, i: usize) -> (r: bool)
    requires
        0 < i <= e@.len(),
    ensures
        r == is_blank(e@[i - 1]),
{
    let c = e.get_char(i - 1);
    c == ' ' || c == '\t' || c == '\n' || c == '\x0C' || c == '\r'
}

fn symbol_chars(op: Op) -> (s: &'static str)
    ensures
        s@ == symbol_of(op),
{
    op.symbol()
}

/// Whether `s` holds a '.'.
fn has_dot(s: &str) -> (r: bool)
    ensures
        r == s@.contains('.'),
{
    let n = s.unicode_len();
    let mut i: usize = 0;
    while i < n
        invariant
            i <= n,
            n == s@.len(),
            forall|j: int| 0 <= j < i ==> s@[j] != '.',
        decreases n - i,
    {
        if s.get_char(i) == '.' {
            assert(s@[i as int] == '.');
            return true;
        }
        i += 1;
    }
    false
}

/// The first `k` characters of `s`.
fn prefix(s: &str, k: usize) -> (r: String)
    requires
        k <= s@.len(),
    ensures
        r@ == s@.subrange(0, k as int),
{
    let mut out: Vec<char> = Vec::new();
    let mut i: usize = 0;
    while i < k
        invariant
            i <= k,
            k <= s@.len(),
            out@ == s@.subrange(0, i as int),
        decreases k - i,
    {
        out.push(s.get_char(i));
        i += 1;
        assert(out@ =~= s@.subrange(0, i as int));
    }
    string_from_chars(&out)
}

/// `s` without its first character.
fn drop_first(s: &str) -> (r: String)
    requires
        s@.len() > 0,
    ensures
        r@ == s@.drop_first(),
{
    let n = s.unicode_len();
    let mut out: Vec<char> = Vec::new();
    let mut i: usize = 1;
    while i < n
        invariant
            1 <= i <= n,
            n == s@.len(),
            out@ == s@.subrange(1, i as int),
        decreases n - i,
    {
        out.push(s.get_char(i));
        i += 1;
        assert(out@ =~= s@.subrange(1, i as int));
    }
    assert(s@.subrange(1, n as int) =~= s@.drop_first());
    string_from_chars(&out)
}

fn is_zero_text(s: &str) -> (r: bool)
    ensures
        r == (s@ == zero_text()),
{
    let n = s.unicode_len();
    if n == 1 {
        let c = s.get_char(0);
        assert(c == '0' ==> s@ =~= zero_text());
        c == '0'
    } else {
        false
    }
}

impl Entry {
    /// A fresh entry: "0" on the display, nothing pending.
    pub fn new() -> (e: Entry)
        ensures
            e.display@ == zero_text(),
            e.operator is None,
            e.last_operator is None,
            e.state == CalcState::InputFirst,
            !e.has_decimal,
            !e.error,
            !e.waiting_for_second,
            e.expression@.len() == 0,
    {
        let mut zero: Vec<char> = Vec::new();
        zero.push('0');
        let empty: Vec<char> = Vec::new();
        Entry {
            display: string_from_chars(&zero),
            operator: None,
            last_operator: None,
            state: CalcState::InputFirst,
            has_decimal: false,
            error: false,
            waiting_for_second: false,
            expression: string_from_chars(&empty),
        }
    }

    /// The display with thousands separators.
    pub fn display(&self) -> (s: String)
        ensures
            s@ == with_commas(self.display@),
    {
        add_commas(self.display.as_str())
    }

    /// The expression line.
    pub fn expression(&self) -> (s: &str)
        ensures
            s@ == self.expression@,
    {
        self.expression.as_str()
    }

    /// A digit key. After a result it starts a new number (and a new
    /// calculation); after an operator it starts the second number; a lone
    /// "0" is replaced; otherwise the digit is appended. Ignored after an
    /// error, and for values above 9.
    pub fn press_digit(&mut self, d: u8)
        ensures
            final(self).last_operator == old(self).last_operator,
            old(self).error || d > 9 ==> final(self).display@ == old(self).display@ && final(self).state == old(self).state
                && final(self).operator == old(self).operator && final(self).has_decimal == old(self).has_decimal
                && final(self).waiting_for_second == old(self).waiting_for_second && final(self).expression@ == old(
                self,
            ).expression@,
            final(self).error == old(self).error,
            !old(self).error && d <= 9 ==> {
                if old(self).state == CalcState::ShowResult {
                    &&& final(self).display@ == seq![digit_char(d)]
                    &&& !final(self).has_decimal
                    &&& final(self).state == CalcState::InputFirst
                    &&& final(self).operator is None
                    &&& !final(self).waiting_for_second
                    &&& final(self).expression@.len() == 0
                } else {
                    &&& final(self).state == old(self).state
                    &&& final(self).operator == old(self).operator
                    &&& final(self).expression@ == old(self).expression@
                    &&& if old(self).waiting_for_second {
                        &&& final(self).display@ == seq![digit_char(d)]
                        &&& !final(self).has_decimal
                        &&& !final(self).waiting_for_second
                    } else {
                        &&& final(self).display@ == if old(self).display@ == zero_text() {
                            seq![digit_char(d)]
                        } else {
                            old(self).display@.push(digit_char(d))
                        }
                        &&& final(self).has_decimal == old(self).has_decimal
                        &&& !final(self).waiting_for_second
                    }
                }
            },
    {
        if self.error || d > 9 {
            return;
        }
        let c = (48 + d) as char;
        let mut one: Vec<char> = Vec::new();
        one.push(c);
        if self.state == CalcState::ShowResult {
            self.display = string_from_chars(&one);
            self.has_decimal = false;
            self.state = CalcState::InputFirst;
            self.operator = None;
            self.waiting_for_second = false;
            let empty: Vec<char> = Vec::new();
            self.expression = string_from_chars(&empty);
            return;
        }
        if self.waiting_for_second {
            self.display = string_from_chars(&one);
            self.has_decimal = false;
            self.waiting_for_second = false;
            return;
        }
        if is_zero_text(self.display.as_str()) {
            self.display = string_from_chars(&one);
        } else {
            let mut chars: Vec<char> = Vec::new();
            push_chars(&mut chars, self.display.as_str());
            chars.push(c);
            self.display = string_from_chars(&chars);
        }
    }

    /// The decimal point key: "0." to start a number, or a '.' appended
    /// once. Ignored after an error.
    pub fn press_decimal(&mut self)
        ensures
            final(self).last_operator == old(self).last_operator,
            final(self).error == old(self).error,
            final(self).expression@ == old(self).expression@,
            old(self).error ==> final(self).display@ == old(self).display@ && final(self).state == old(self).state
                && final(self).operator == old(self).operator && final(self).has_decimal == old(self).has_decimal
                && final(self).waiting_for_second == old(self).waiting_for_second,
            !old(self).error ==> {
                if old(self).state == CalcState::ShowResult {
                    &&& final(self).display@ == seq!['0', '.']
                    &&& final(self).has_decimal
                    &&& final(self).state == CalcState::InputFirst
                    &&& final(self).operator is None
                    &&& !final(self).waiting_for_second
                } else {
                    &&& final(self).state == old(self).state
                    &&& final(self).operator == old(self).operator
                    &&& !final(self).waiting_for_second
                    &&& if old(self).waiting_for_second {
                        &&& final(self).display@ == seq!['0', '.']
                        &&& final(self).has_decimal
                    } else if !old(self).has_decimal {
                        &&& final(self).display@ == old(self).display@.push('.')
                        &&& final(self).has_decimal
                    } else {
                        &&& final(self).display@ == old(self).display@
                        &&& final(self).has_decimal
                    }
                }
            },
    {
        if self.error {
            return;
        }
        let mut zero_dot: Vec<char> = Vec::new();
        zero_dot.push('0');
        zero_dot.push('.');
        if self.state == CalcState::ShowResult {
            self.display = string_from_chars(&zero_dot);
            self.has_decimal = true;
            self.state = CalcState::InputFirst;
            self.operator = None;
            self.waiting_for_second = false;
            return;
        }
        if self.waiting_for_second {
            self.display = string_from_chars(&zero_dot);
            self.has_decimal = true;
            self.waiting_for_second = false;
            return;
        }
        if !self.has_decimal {
            let mut chars: Vec<char> = Vec::new();
            push_chars(&mut chars, self.display.as_str());
            chars.push('.');
            self.display = string_from_chars(&chars);
            self.has_decimal = true;
        }
    }

    /// The backspace key: drops the last character, back to "0" when one is
    /// left; a dropped '.' may be typed again. Ignored after an error and on
    /// a result.
    pub fn press_backspace(&mut self)
        ensures
            final(self).last_operator == old(self).last_operator,
            final(self).error == old(self).error,
            final(self).state == old(self).state,
            final(self).operator == old(self).operator,
            final(self).waiting_for_second == old(self).waiting_for_second,
            final(self).expression@ == old(self).expression@,
            old(self).error || old(self).state == CalcState::ShowResult ==> final(self).display@ == old(self).display@
                && final(self).has_decimal == old(self).has_decimal,
            !old(self).error && old(self).state != CalcState::ShowResult ==> {
                if old(self).display@.len() > 1 {
                    &&& final(self).display@ == old(self).display@.drop_last()
                    &&& final(self).has_decimal == (old(self).has_decimal && old(self).display@.last() != '.')
                } else {
                    &&& final(self).display@ == zero_text()
                    &&& final(self).has_decimal == old(self).has_decimal
                }
            },
    {
        if self.error {
            return;
        }
        if self.state == CalcState::ShowResult {
            return;
        }
        let n = self.display.as_str().unicode_len();
        if n > 1 {
            let removed = self.display.as_str().get_char(n - 1);
            self.display = prefix(self.display.as_str(), n - 1);
            if removed == '.' {
                self.has_decimal = false;
            }
        } else {
            let mut zero: Vec<char> = Vec::new();
            zero.push('0');
            self.display = string_from_chars(&zero);
        }
    }

    /// The sign key: puts a '-' in front of the display or takes it away.
    /// Ignored after an error and on "0".
    pub fn press_negate(&mut self)
        ensures
            final(self).last_operator == old(self).last_operator,
            final(self).error == old(self).error,
            final(self).state == old(self).state,
            final(self).operator == old(self).operator,
            final(self).has_decimal == old(self).has_decimal,
            final(self).waiting_for_second == old(self).waiting_for_second,
            final(self).expression@ == old(self).expression@,
            final(self).display@ == if old(self).error || old(self).display@ == zero_text() {
                old(self).display@
            } else if old(self).display@.len() > 0 && old(self).display@[0] == '-' {
                old(self).display@.drop_first()
            } else {
                seq!['-'] + old(self).display@
            },
    {
        if self.error {
            return;
        }
        if is_zero_text(self.display.as_str()) {
            return;
        }
        let n = self.display.as_str().unicode_len();
        if n > 0 && self.display.as_str().get_char(0) == '-' {
            self.display = drop_first(self.display.as_str());
        } else {
            let mut chars: Vec<char> = Vec::new();
            chars.push('-');
            push_chars(&mut chars, self.display.as_str());
            self.display = string_from_chars(&chars);
        }
    }

    /// An operator pressed on a number: the expression line shows the
    /// number (with separators) and the operator, and the second number is
    /// awaited.
    pub fn start_expression(&mut self, op: Op)
        ensures
            final(self).last_operator == old(self).last_operator,
            final(self).expression@ == with_commas(old(self).display@) + seq![' '] + symbol_of(op),
            final(self).operator == Some(op),
            final(self).state == CalcState::InputSecond,
            final(self).waiting_for_second,
            final(self).display@ == old(self).display@,
            final(self).has_decimal == old(self).has_decimal,
            final(self).error == old(self).error,
    {
        let shown = add_commas(self.display.as_str());
        let mut chars: Vec<char> = Vec::new();
        push_chars(&mut chars, shown.as_str());
        chars.push(' ');
        push_chars(&mut chars, symbol_chars(op));
        self.expression = string_from_chars(&chars);
        self.operator = Some(op);
        self.state = CalcState::InputSecond;
        self.waiting_for_second = true;
    }

    /// Another operator pressed right after one: it takes the place of the
    /// last on the expression line.
    pub fn swap_operator(&mut self, op: Op)
        ensures
            final(self).last_operator == old(self).last_operator,
            final(self).expression@ == operator_swapped(old(self).expression@, op),
            final(self).operator == Some(op),
            final(self).state == old(self).state,
            final(self).waiting_for_second == old(self).waiting_for_second,
            final(self).display@ == old(self).display@,
            final(self).has_decimal == old(self).has_decimal,
            final(self).error == old(self).error,
    {
        self.operator = Some(op);
        let e = self.expression.as_str();
        let n = e.unicode_len();
        let ghost es = e@;
        let mut i: usize = n;
        while i > 0 && blank_before(e, i)
            invariant
                i <= n,
                n == es.len(),
                e@ == es,
                last_solid(es, n as int) == last_solid(es, i as int),
            decreases i,
        {
            i -= 1;
        }
        proof {
            lemma_last_solid(es, n as int);
        }
        let mut chars: Vec<char> = Vec::new();
        if i > 0 {
            let kept = prefix(e, i - 1);
            push_chars(&mut chars, kept.as_str());
        } else {
            push_chars(&mut chars, e);
        }
        push_chars(&mut chars, symbol_chars(op));
        self.expression = string_from_chars(&chars);
    }

    /// The equation of an equals key: both numbers (as computed, with
    /// separators), the operator and "=".
    pub fn set_equation(&mut self, first: &str, op: Op, second: &str)
        ensures
            final(self).last_operator == old(self).last_operator,
            final(self).expression@ == with_commas(first@) + seq![' '] + symbol_of(op) + seq![' '] + with_commas(
                second@,
            ) + seq![' ', '='],
            final(self).operator == old(self).operator,
            final(self).state == old(self).state,
            final(self).waiting_for_second == old(self).waiting_for_second,
            final(self).display@ == old(self).display@,
            final(self).has_decimal == old(self).has_decimal,
            final(self).error == old(self).error,
    {
        let a = add_commas(first);
        let b = add_commas(second);
        let mut chars: Vec<char> = Vec::new();
        push_chars(&mut chars, a.as_str());
        chars.push(' ');
        push_chars(&mut chars, symbol_chars(op));
        chars.push(' ');
        push_chars(&mut chars, b.as_str());
        chars.push(' ');
        chars.push('=');
        self.expression = string_from_chars(&chars);
    }

    /// A result is shown: `text` on the display, the operator done with.
    pub fn show_result(&mut self, text: String)
        ensures
            final(self).last_operator == old(self).last_operator,
            final(self).display@ == text@,
            final(self).has_decimal == text@.contains('.'),
            final(self).state == CalcState::ShowResult,
            final(self).operator is None,
            final(self).error == old(self).error,
            final(self).waiting_for_second == old(self).waiting_for_second,
            final(self).expression@ == old(self).expression@,
    {
        self.has_decimal = has_dot(text.as_str());
        self.display = text;
        self.state = CalcState::ShowResult;
        self.operator = None;
    }

    /// A percentage replaces the number being typed with `text`.
    pub fn show_percent(&mut self, text: String)
        ensures
            final(self).last_operator == old(self).last_operator,
            final(self).display@ == text@,
            final(self).has_decimal == text@.contains('.'),
            !final(self).waiting_for_second,
            final(self).state == old(self).state,
            final(self).operator == old(self).operator,
            final(self).error == old(self).error,
            final(self).expression@ == old(self).expression@,
    {
        self.has_decimal = has_dot(text.as_str());
        self.display = text;
        self.waiting_for_second = false;
    }

    /// A calculation failed: "Error" on the display, and every key but
    /// clear ignored from now on.
    pub fn show_error(&mut self)
        ensures
            final(self).last_operator == old(self).last_operator,
            final(self).display@ == error_text(),
            final(self).error,
            final(self).state == CalcState::ShowResult,
            final(self).operator == old(self).operator,
            final(self).has_decimal == old(self).has_decimal,
            final(self).waiting_for_second == old(self).waiting_for_second,
            final(self).expression@ == old(self).expression@,
    {
        let mut chars: Vec<char> = Vec::new();
        chars.push('E');
        chars.push('r');
        chars.push('r');
        chars.push('o');
        chars.push('r');
        self.display = string_from_chars(&chars);
        self.error = true;
        self.state = CalcState::ShowResult;
    }
}

impl Entry {
    /// The step an operator key calls for.
    pub fn operator_step(&self) -> (st: OperatorStep)
        ensures
            st == if self.error {
                OperatorStep::Ignore
            } else if self.state == CalcState::InputSecond {
                if self.waiting_for_second {
                    OperatorStep::Swap
                } else {
                    OperatorStep::EvaluateThenTake
                }
            } else {
                OperatorStep::TakeFirst
            },
    {
        if self.error {
            OperatorStep::Ignore
        } else if self.state == CalcState::InputSecond {
            if self.waiting_for_second {
                OperatorStep::Swap
            } else {
                OperatorStep::EvaluateThenTake
            }
        } else {
            OperatorStep::TakeFirst
        }
    }

    /// After the pending calculation of an operator key: unless it failed,
    /// the result starts the next expression with `op`. Returns whether the
    /// display (the result) is to become the first operand.
    pub fn continue_with(&mut self, op: Op) -> (take: bool)
        ensures
            take == !old(self).error,
            old(self).error ==> final(self).display@ == old(self).display@ && final(self).expression@ == old(
                self,
            ).expression@ && final(self).operator == old(self).operator && final(self).state == old(self).state
                && final(self).waiting_for_second == old(self).waiting_for_second && final(self).has_decimal == old(
                self,
            ).has_decimal,
            !old(self).error ==> {
                &&& final(self).expression@ == with_commas(old(self).display@) + seq![' '] + symbol_of(op)
                &&& final(self).operator == Some(op)
                &&& final(self).state == CalcState::InputSecond
                &&& final(self).waiting_for_second
                &&& !final(self).has_decimal
                &&& final(self).display@ == old(self).display@
            },
            final(self).error == old(self).error,
            final(self).last_operator == old(self).last_operator,
    {
        if self.error {
            return false;
        }
        self.start_expression(op);
        self.has_decimal = false;
        true
    }

    /// The step an equals key calls for. While a second number is awaited or
    /// typed, the pending operator is remembered for repeats; on a result,
    /// the remembered operator becomes pending again.
    pub fn begin_equals(&mut self) -> (st: EqualsStep)
        ensures
            st == if old(self).error {
                EqualsStep::Ignore
            } else if old(self).state == CalcState::InputSecond {
                EqualsStep::Evaluate { second_from_display: !old(self).waiting_for_second, op: old(self).operator }
            } else if old(self).state == CalcState::ShowResult && old(self).last_operator is Some {
                EqualsStep::Repeat { last: old(self).last_operator->0 }
            } else {
                EqualsStep::Ignore
            },
            final(self).last_operator == if !old(self).error && old(self).state == CalcState::InputSecond {
                old(self).operator
            } else {
                old(self).last_operator
            },
            final(self).operator == if st is Repeat {
                old(self).last_operator
            } else {
                old(self).operator
            },
            final(self).display@ == old(self).display@,
            final(self).expression@ == old(self).expression@,
            final(self).state == old(self).state,
            final(self).error == old(self).error,
            final(self).has_decimal == old(self).has_decimal,
            final(self).waiting_for_second == old(self).waiting_for_second,
    {
        if self.error {
            return EqualsStep::Ignore;
        }
        if self.state == CalcState::InputSecond {
            self.last_operator = self.operator;
            return EqualsStep::Evaluate { second_from_display: !self.waiting_for_second, op: self.operator };
        }
        if self.state == CalcState::ShowResult {
            if let Some(op) = self.last_operator {
                self.operator = Some(op);
                return EqualsStep::Repeat { last: op };
            }
        }
        EqualsStep::Ignore
    }

    /// The step the percent key calls for.
    pub fn percent_step(&self) -> (st: PercentStep)
        ensures
            st == if self.error {
                PercentStep::Ignore
            } else {
                PercentStep::Apply {
                    current_is_first: self.waiting_for_second,
                    of_first: self.operator == Some(Op::Add) || self.operator == Some(Op::Sub),
                }
            },
    {
        if self.error {
            return PercentStep::Ignore;
        }
        let of_first = match self.operator {
            Some(Op::Add) => true,
            Some(Op::Sub) => true,
            _ => false,
        };
        PercentStep::Apply { current_is_first: self.waiting_for_second, of_first }
    }
}

} // verus!
