//! The text form of a budget.
//!
//! A line item is written `<L>?<name><value>?<flag>`: `L` is the number of
//! characters of the name in decimal, the name follows as is (so it may hold
//! any character but the two separators below), the monthly value is a plain
//! decimal number of currency units, and the flag is `true` or `false`. Each
//! item is followed by a tab; the fixed items come first, then a newline,
//! then the expandable items.

use vstd::prelude::*;
use crate::budget::{Budget, BudgetModel, BudgetPart, PartModel, models};
use crate::text::{
    chars_of,
    digit_char,
    digit_value,
    digits_of,
    is_digit,
    lemma_digit_char,
    lemma_digits_of,
    nat_of,
    push_char,
    push_digits,
    push_range,
};

verus! {

/// Why a text is not a budget.
#[derive(Clone, Copy, Debug, PartialEq, Eq, Structural)]
pub enum DecodeError {
    /// The item does not start with digits followed by a separator.
    LengthPrefix,
    /// Fewer characters remain than the length prefix announces.
    TruncatedName,
    /// The monthly value is not a decimal number that fits.
    MonthlyValue,
    /// The flag is neither `true` nor `false`.
    Flag,
}

/// The first index from `i` on whose character is `c`, or the length.
pub open spec fn char_from(s: Seq<char>, c: char, i: int) -> int
    decreases s.len() - i,
{
    if 0 <= i < s.len() && s[i] != c {
        char_from(s, c, i + 1)
    } else {
        i
    }
}

/// The end of the run of digits that starts at `i`.
pub open spec fn digit_run(s: Seq<char>, i: int) -> int
    decreases s.len() - i,
{
    if 0 <= i < s.len() && is_digit(s[i]) {
        digit_run(s, i + 1)
    } else {
        i
    }
}

/// The end of the run of digits and points that starts at `i`.
pub open spec fn number_run(s: Seq<char>, i: int) -> int
    decreases s.len() - i,
{
    if 0 <= i < s.len() && (is_digit(s[i]) || s[i] == '.') {
        number_run(s, i + 1)
    } else {
        i
    }
}

pub open spec fn all_digits(s: Seq<char>) -> bool {
    forall|i: int| 0 <= i < s.len() ==> is_digit(#[trigger] s[i])
}

/// Cents given by the digits after the point; further digits are dropped.
pub open spec fn fraction_cents(f: Seq<char>) -> nat {
    (if f.len() > 0 {
        digit_value(f[0]) * 10
    } else {
        0
    }) + (if f.len() > 1 {
        digit_value(f[1])
    } else {
        0
    })
}

/// The amount in cents that a decimal number of currency units denotes:
/// digits, at most one point, at least one digit, and a value that fits.
pub open spec fn amount_of(t: Seq<char>) -> Option<u64> {
    let k = char_from(t, '.', 0);
    let whole = t.subrange(0, k);
    let frac = if k < t.len() {
        t.subrange(k + 1, t.len() as int)
    } else {
        Seq::<char>::empty()
    };
    let v = nat_of(whole) * 100 + fraction_cents(frac);
    if all_digits(whole) && all_digits(frac) && (whole.len() > 0 || frac.len() > 0) && v
        <= u64::MAX {
        Some(v as u64)
    } else {
        None
    }
}

/// The text of an amount in cents: whole units, then the cents after a
/// point with trailing zeros left out.
pub open spec fn amount_text(v: u64) -> Seq<char> {
    let c = (v % 100) as nat;
    digits_of((v / 100) as nat) + if c == 0 {
        Seq::<char>::empty()
    } else if c % 10 == 0 {
        seq!['.', digit_char(c / 10)]
    } else {
        seq!['.', digit_char(c / 10), digit_char(c % 10)]
    }
}

pub open spec fn flag_text(b: bool) -> Seq<char> {
    if b {
        seq!['t', 'r', 'u', 'e']
    } else {
        seq!['f', 'a', 'l', 's', 'e']
    }
}

/// `true` and `false`, and nothing else.
pub open spec fn flag_of(t: Seq<char>) -> Option<bool> {
    if t == flag_text(true) {
        Some(true)
    } else if t == flag_text(false) {
        Some(false)
    } else {
        None
    }
}

/// The line item that one record denotes.
pub open spec fn part_of(s: Seq<char>) -> Result<PartModel, DecodeError> {
    let k = digit_run(s, 0);
    if k == 0 || k >= s.len() {
        Err(DecodeError::LengthPrefix)
    } else {
        let len = nat_of(s.subrange(0, k));
        let a = k + 1;
        if len > s.len() - a {
            Err(DecodeError::TruncatedName)
        } else {
            let b = a + len;
            let m = number_run(s, b);
            match amount_of(s.subrange(b, m)) {
                None => Err(DecodeError::MonthlyValue),
                Some(v) => {
                    let f = if m < s.len() {
                        s.subrange(m + 1, s.len() as int)
                    } else {
                        Seq::<char>::empty()
                    };
                    match flag_of(f) {
                        None => Err(DecodeError::Flag),
                        Some(e) => Ok(PartModel { name: s.subrange(a, b), value: v, expandable: e }),
                    }
                },
            }
        }
    }
}

/// `ps` followed by what `r` holds, or the error of `r`.
pub open spec fn prepend(ps: Seq<PartModel>, r: Result<Seq<PartModel>, DecodeError>) -> Result<
    Seq<PartModel>,
    DecodeError,
> {
    match r {
        Ok(qs) => Ok(ps + qs),
        Err(e) => Err(e),
    }
}

/// The items of a section, scanned from `i`, where the current record began
/// at `start`. Each record ends at a tab; characters after the last tab are
/// no record. An item belongs to the section it stands in, whatever its
/// flag says.
pub open spec fn section_from(s: Seq<char>, start: int, i: int) -> Result<
    Seq<PartModel>,
    DecodeError,
>
    decreases s.len() - i,
{
    if i < 0 || i >= s.len() {
        Ok(Seq::empty())
    } else if s[i] == '\t' {
        match part_of(s.subrange(start, i)) {
            Err(e) => Err(e),
            Ok(p) => prepend(seq![p], section_from(s, i + 1, i + 1)),
        }
    } else {
        section_from(s, start, i + 1)
    }
}

/// The budget that a text denotes: the fixed section up to the first
/// newline, the expandable section after it.
pub open spec fn budget_of(s: Seq<char>) -> Result<BudgetModel, DecodeError> {
    let n = char_from(s, '\n', 0);
    let rest = if n < s.len() {
        s.subrange(n + 1, s.len() as int)
    } else {
        Seq::<char>::empty()
    };
    match section_from(s.subrange(0, n), 0, 0) {
        Err(e) => Err(e),
        Ok(f) => match section_from(rest, 0, 0) {
            Err(e) => Err(e),
            Ok(x) => Ok(BudgetModel { fixed: f, expandable: x }),
        },
    }
}

pub open spec fn part_text(p: PartModel) -> Seq<char> {
    digits_of(p.name.len()) + seq!['?'] + p.name + amount_text(p.value) + seq!['?'] + flag_text(
        p.expandable,
    )
}

/// Each item's text followed by a tab.
pub open spec fn section_text(ps: Seq<PartModel>) -> Seq<char>
    decreases ps.len(),
{
    if ps.len() == 0 {
        Seq::empty()
    } else {
        section_text(ps.drop_last()) + part_text(ps.last()) + seq!['\t']
    }
}

pub open spec fn budget_text(b: BudgetModel) -> Seq<char> {
    section_text(b.fixed) + seq!['\n'] + section_text(b.expandable)
}

proof fn lemma_nat_of_step(s: Seq<char>, i: int)
    requires
        0 <= i < s.len(),
    ensures
        nat_of(s.subrange(0, i + 1)) == nat_of(s.subrange(0, i)) * 10 + digit_value(s[i]),
{
    assert(s.subrange(0, i + 1).drop_last() =~= s.subrange(0, i));
}

proof fn lemma_nat_of_mono(s: Seq<char>, j: int, k: int)
    requires
        0 <= j <= k <= s.len(),
    ensures
        nat_of(s.subrange(0, j)) <= nat_of(s.subrange(0, k)),
    decreases k - j,
{
    if j < k {
        lemma_nat_of_step(s, k - 1);
        lemma_nat_of_mono(s, j, k - 1);
    }
}

/// The characters of `cs` from `a` up to `b`.
fn copy_range(cs: &Vec<char>, a: usize, b: usize) -> (r: Vec<char>)
    requires
        a <= b <= cs.len(),
    ensures
        r@ == cs@.subrange(a as int, b as int),
{
    let mut r: Vec<char> = Vec::new();
    let mut i: usize = a;
    while i < b
        invariant
            a <= i <= b <= cs.len(),
            r@ == cs@.subrange(a as int, i as int),
        decreases b - i,
    {
        r.push(cs[i]);
        assert(r@ =~= cs@.subrange(a as int, i + 1));
        i = i + 1;
    }
    r
}

fn is_digit_char(c: char) -> (r: bool)
    ensures
        r == is_digit(c),
{
    '0' <= c && c <= '9'
}

/// Reads the digits of `t` from `a` up to `b` as a number, giving `None`
/// once it exceeds `limit`.
fn read_number(t: &Vec<char>, a: usize, b: usize, limit: u64) -> (r: Option<u64>)
    requires
        a <= b <= t.len(),
        all_digits(t@.subrange(a as int, b as int)),
    ensures
        r == (if nat_of(t@.subrange(a as int, b as int)) <= limit {
            Some(nat_of(t@.subrange(a as int, b as int)) as u64)
        } else {
            None::<u64>
        }),
{
    let ghost d = t@.subrange(a as int, b as int);
    let mut acc: u64 = 0;
    let mut i: usize = a;
    while i < b
        invariant
            a <= i <= b <= t.len(),
            d == t@.subrange(a as int, b as int),
            all_digits(d),
            acc == nat_of(d.subrange(0, i - a)),
            acc <= limit,
        decreases b - i,
    {
        proof {
            lemma_nat_of_step(d, i - a);
            assert(is_digit(d[i - a]));
        }
        let v: u64 = (t[i] as u32 - '0' as u32) as u64;
        if v > limit || acc > (limit - v) / 10 {
            proof {
                lemma_nat_of_mono(d, i - a + 1, d.len() as int);
                assert(d.subrange(0, d.len() as int) =~= d);
                assert(acc * 10 + v > limit) by (nonlinear_arith)
                    requires
                        v > limit || acc > (limit - v) / 10,
                        acc >= 0,
                        v >= 0,
                ;
            }
            return None;
        }
        assert(acc * 10 + v <= limit) by (nonlinear_arith)
            requires
                acc <= (limit - v) / 10,
                v <= limit,
        ;
        acc = acc * 10 + v;
        i = i + 1;
    }
    assert(d.subrange(0, d.len() as int) =~= d);
    Some(acc)
}

/// Whether every character of `t` from `a` up to `b` is a digit.
fn digits_only(t: &Vec<char>, a: usize, b: usize) -> (r: bool)
    requires
        a <= b <= t.len(),
    ensures
        r == all_digits(t@.subrange(a as int, b as int)),
{
    let mut i: usize = a;
    while i < b
        invariant
            a <= i <= b <= t.len(),
            forall|k: int| a <= k < i ==> is_digit(t[k]),
        decreases b - i,
    {
        if !is_digit_char(t[i]) {
            assert(!is_digit(t@.subrange(a as int, b as int)[i - a]));
            return false;
        }
        i = i + 1;
    }
    assert forall|k: int| 0 <= k < b - a implies is_digit(#[trigger] t@.subrange(a as int, b as int)[k]) by {
        assert(t@.subrange(a as int, b as int)[k] == t[a + k]);
    }
    true
}

/// The amount in cents that `t` denotes as a decimal number of currency
/// units, if it is one.
pub fn parse_amount(t: &Vec<char>) -> (r: Option<u64>)
    ensures
        r == amount_of(t@),
{
    let mut k: usize = 0;
    while k < t.len() && t[k] != '.'
        invariant
            k <= t.len(),
            char_from(t@, '.', k as int) == char_from(t@, '.', 0),
        decreases t.len() - k,
    {
        k = k + 1;
    }
    let ghost whole = t@.subrange(0, k as int);
    let ghost frac = if k < t.len() {
        t@.subrange(k + 1, t.len() as int)
    } else {
        Seq::<char>::empty()
    };
    let end_frac: usize = if k < t.len() {
        k + 1
    } else {
        k
    };
    assert(frac =~= t@.subrange(end_frac as int, t.len() as int));
    if !digits_only(t, 0, k) || !digits_only(t, end_frac, t.len()) {
        return None;
    }
    if k == 0 && end_frac == t.len() {
        return None;
    }
    let mut cents: u64 = 0;
    if end_frac < t.len() {
        cents = (t[end_frac] as u32 - '0' as u32) as u64 * 10;
        assert(is_digit(frac[0]));
        if end_frac + 1 < t.len() {
            assert(is_digit(frac[1]));
            cents = cents + (t[end_frac + 1] as u32 - '0' as u32) as u64;
        }
    }
    assert(cents == fraction_cents(frac));
    match read_number(t, 0, k, (u64::MAX - cents) / 100) {
        None => {
            assert(nat_of(whole) * 100 + cents > u64::MAX) by (nonlinear_arith)
                requires
                    nat_of(whole) > (u64::MAX - cents) / 100,
                    cents <= u64::MAX,
            ;
            None
        },
        Some(w) => {
            assert(w * 100 + cents <= u64::MAX) by (nonlinear_arith)
                requires
                    w <= (u64::MAX - cents) / 100,
                    cents <= u64::MAX,
            ;
            Some(w * 100 + cents)
        },
    }
}

/// `true` or `false`, if `t` spells one of them.
pub fn parse_flag(t: &Vec<char>) -> (r: Option<bool>)
    ensures
        r == flag_of(t@),
{
    if t.len() == 4 && t[0] == 't' && t[1] == 'r' && t[2] == 'u' && t[3] == 'e' {
        assert(t@ =~= flag_text(true));
        Some(true)
    } else if t.len() == 5 && t[0] == 'f' && t[1] == 'a' && t[2] == 'l' && t[3] == 's' && t[4]
        == 'e' {
        assert(t@ =~= flag_text(false));
        Some(false)
    } else {
        proof {
            if t@ == flag_text(true) {
                assert(t@[0] == 't' && t@[1] == 'r' && t@[2] == 'u' && t@[3] == 'e');
            }
            if t@ == flag_text(false) {
                assert(t@[0] == 'f' && t@[1] == 'a' && t@[2] == 'l' && t@[3] == 's' && t@[4]
                    == 'e');
            }
        }
        None
    }
}

/// The line item that one record denotes.
fn parse_part(rec: &Vec<char>) -> (r: Result<BudgetPart, DecodeError>)
    ensures
        match r {
            Ok(p) => part_of(rec@) == Ok::<PartModel, DecodeError>(p@),
            Err(e) => part_of(rec@) == Err::<PartModel, DecodeError>(e),
        },
{
    let n = rec.len();
    let mut k: usize = 0;
    while k < n && is_digit_char(rec[k])
        invariant
            k <= n == rec.len(),
            digit_run(rec@, k as int) == digit_run(rec@, 0),
            forall|j: int| 0 <= j < k ==> is_digit(rec[j]),
        decreases n - k,
    {
        k = k + 1;
    }
    if k == 0 || k >= n {
        return Err(DecodeError::LengthPrefix);
    }
    let a = k + 1;
    assert forall|j: int| 0 <= j < k implies is_digit(#[trigger] rec@.subrange(0, k as int)[j]) by {
        assert(rec@.subrange(0, k as int)[j] == rec[j]);
    }
    let len: usize = match read_number(rec, 0, k, (n - a) as u64) {
        None => {
            return Err(DecodeError::TruncatedName);
        },
        Some(l) => l as usize,
    };
    let b = a + len;
    let mut name = String::new();
    push_range(&mut name, rec, a, b);
    let mut m: usize = b;
    while m < n && (is_digit_char(rec[m]) || rec[m] == '.')
        invariant
            b <= m <= n == rec.len(),
            number_run(rec@, m as int) == number_run(rec@, b as int),
        decreases n - m,
    {
        m = m + 1;
    }
    let t = copy_range(rec, b, m);
    let v = match parse_amount(&t) {
        None => {
            return Err(DecodeError::MonthlyValue);
        },
        Some(v) => v,
    };
    let f = if m < n {
        copy_range(rec, m + 1, n)
    } else {
        Vec::new()
    };
    assert(f@ == (if m < n {
        rec@.subrange(m + 1, n as int)
    } else {
        Seq::<char>::empty()
    }));
    let e = match parse_flag(&f) {
        None => {
            return Err(DecodeError::Flag);
        },
        Some(e) => e,
    };
    Ok(BudgetPart::new(name, v, e))
}

/// The items of one section.
fn decode_section(s: &Vec<char>) -> (r: Result<Vec<BudgetPart>, DecodeError>)
    ensures
        match r {
            Ok(ps) => section_from(s@, 0, 0) == Ok::<Seq<PartModel>, DecodeError>(
                models(ps@),
            ),
            Err(e) => section_from(s@, 0, 0) == Err::<Seq<PartModel>, DecodeError>(e),
        },
{
    let mut out: Vec<BudgetPart> = Vec::new();
    let mut start: usize = 0;
    let mut i: usize = 0;
    assert(models(out@) =~= Seq::<PartModel>::empty());
    assert(prepend(Seq::empty(), section_from(s@, 0, 0)) == section_from(s@, 0, 0)) by {
        match section_from(s@, 0, 0) {
            Ok(qs) => {
                assert(Seq::<PartModel>::empty() + qs =~= qs);
            },
            Err(e) => {},
        }
    }
    while i < s.len()
        invariant
            start <= i <= s.len(),
            section_from(s@, 0, 0) == prepend(
                models(out@),
                section_from(s@, start as int, i as int),
            ),
        decreases s.len() - i,
    {
        if s[i] == '\t' {
            let rec = copy_range(s, start, i);
            match parse_part(&rec) {
                Err(e) => {
                    return Err(e);
                },
                Ok(p) => {
                    let ghost before = models(out@);
                    let ghost pm = p@;
                    out.push(p);
                    proof {
                        assert(models(out@) =~= before + seq![pm]);
                        match section_from(s@, i + 1, i + 1) {
                            Ok(qs) => {
                                assert(before + (seq![pm] + qs) =~= (before + seq![pm]) + qs);
                            },
                            Err(e) => {},
                        }
                    }
                    start = i + 1;
                },
            }
        }
        i = i + 1;
    }
    assert(models(out@) + Seq::<PartModel>::empty() =~= models(out@));
    Ok(out)
}

impl Budget {
    /// Reads a budget from its text form.
    pub fn decode(text: &str) -> (r: Result<Budget, DecodeError>)
        ensures
            match r {
                Ok(b) => budget_of(text@) == Ok::<BudgetModel, DecodeError>(b@),
                Err(e) => budget_of(text@) == Err::<BudgetModel, DecodeError>(e),
            },
    {
        let cs = chars_of(text);
        let mut n: usize = 0;
        while n < cs.len() && cs[n] != '\n'
            invariant
                n <= cs.len(),
                char_from(cs@, '\n', n as int) == char_from(cs@, '\n', 0),
            decreases cs.len() - n,
        {
            n = n + 1;
        }
        let head = copy_range(&cs, 0, n);
        let rest = if n < cs.len() {
            copy_range(&cs, n + 1, cs.len())
        } else {
            Vec::new()
        };
        assert(rest@ == (if n < cs.len() {
            cs@.subrange(n + 1, cs.len() as int)
        } else {
            Seq::<char>::empty()
        }));
        let fixed = match decode_section(&head) {
            Err(e) => {
                return Err(e);
            },
            Ok(f) => f,
        };
        let expandable = match decode_section(&rest) {
            Err(e) => {
                return Err(e);
            },
            Ok(x) => x,
        };
        Ok(Budget::from_sections(fixed, expandable))
    }

    /// The text form of the budget.
    pub fn encode(&self) -> (r: String)
        ensures
            r@ == budget_text(self@),
    {
        let mut out = String::new();
        encode_section(&mut out, self.parts());
        push_char(&mut out, '\n');
        encode_section(&mut out, self.expandable_parts());
        out
    }
}

/// Appends the text of an amount in cents.
fn push_amount(out: &mut String, v: u64)
    ensures
        final(out)@ == old(out)@ + amount_text(v),
{
    push_digits(out, v / 100);
    let c: u64 = v % 100;
    if c != 0 {
        push_char(out, '.');
        push_char(out, (48u8 + (c / 10) as u8) as char);
        if c % 10 != 0 {
            push_char(out, (48u8 + (c % 10) as u8) as char);
        }
    }
    assert(out@ =~= old(out)@ + amount_text(v));
}

/// Appends the text of a flag.
fn push_flag(out: &mut String, b: bool)
    ensures
        final(out)@ == old(out)@ + flag_text(b),
{
    if b {
        push_char(out, 't');
        push_char(out, 'r');
        push_char(out, 'u');
        push_char(out, 'e');
    } else {
        push_char(out, 'f');
        push_char(out, 'a');
        push_char(out, 'l');
        push_char(out, 's');
        push_char(out, 'e');
    }
    assert(out@ =~= old(out)@ + flag_text(b));
}

/// Appends the text of one line item.
fn encode_part(out: &mut String, p: &BudgetPart)
    ensures
        final(out)@ == old(out)@ + part_text(p@),
{
    let cs = chars_of(p.name().as_str());
    push_digits(out, cs.len() as u64);
    push_char(out, '?');
    push_range(out, &cs, 0, cs.len());
    push_amount(out, p.monthly_value());
    push_char(out, '?');
    push_flag(out, p.expandable());
    assert(cs@.subrange(0, cs.len() as int) =~= cs@);
    assert(out@ =~= old(out)@ + part_text(p@));
}

/// Appends the text of a section: each item followed by a tab.
fn encode_section(out: &mut String, parts: &Vec<BudgetPart>)
    ensures
        final(out)@ == old(out)@ + section_text(models(parts@)),
{
    let mut i: usize = 0;
    assert(section_text(models(parts@.subrange(0, 0))) =~= Seq::<char>::empty());
    assert(out@ =~= old(out)@ + Seq::<char>::empty());
    while i < parts.len()
        invariant
            i <= parts.len(),
            out@ == old(out)@ + section_text(models(parts@.subrange(0, i as int))),
        decreases parts.len() - i,
    {
        let ghost before = out@;
        encode_part(out, &parts[i]);
        push_char(out, '\t');
        proof {
            let ms = models(parts@.subrange(0, i + 1));
            assert(ms.drop_last() =~= models(parts@.subrange(0, i as int)));
            assert(ms.last() == parts[i as int]@);
            assert(out@ =~= old(out)@ + section_text(ms));
        }
        i = i + 1;
    }
    assert(parts@.subrange(0, parts.len() as int) =~= parts@);
}

/// A name that the text form carries unchanged: it holds no tab and no
/// newline.
pub open spec fn plain_name(name: Seq<char>) -> bool {
    forall|i: int| 0 <= i < name.len() ==> name[i] != '\t' && name[i] != '\n'
}

proof fn lemma_digit_run_at(s: Seq<char>, i: int, j: int)
    requires
        0 <= i <= j <= s.len(),
        forall|k: int| i <= k < j ==> is_digit(s[k]),
        j == s.len() || !is_digit(s[j]),
    ensures
        digit_run(s, i) == j,
    decreases j - i,
{
    if i < j {
        lemma_digit_run_at(s, i + 1, j);
    }
}

proof fn lemma_number_run_at(s: Seq<char>, i: int, j: int)
    requires
        0 <= i <= j <= s.len(),
        forall|k: int| i <= k < j ==> is_digit(s[k]) || s[k] == '.',
        j == s.len() || !(is_digit(s[j]) || s[j] == '.'),
    ensures
        number_run(s, i) == j,
    decreases j - i,
{
    if i < j {
        lemma_number_run_at(s, i + 1, j);
    }
}

proof fn lemma_char_from_at(s: Seq<char>, c: char, i: int, j: int)
    requires
        0 <= i <= j <= s.len(),
        forall|k: int| i <= k < j ==> s[k] != c,
        j == s.len() || s[j] == c,
    ensures
        char_from(s, c, i) == j,
    decreases j - i,
{
    if i < j {
        lemma_char_from_at(s, c, i + 1, j);
    }
}

/// The text of an amount reads back as that amount, and holds only digits
/// and points.
proof fn lemma_amount_round_trip(v: u64)
    ensures
        amount_of(amount_text(v)) == Some(v),
        forall|i: int|
            0 <= i < amount_text(v).len() ==> is_digit(#[trigger] amount_text(v)[i])
                || amount_text(v)[i] == '.',
{
    let c = (v % 100) as nat;
    let dg = digits_of((v / 100) as nat);
    let t = amount_text(v);
    lemma_digits_of((v / 100) as nat);
    lemma_digit_char(c / 10);
    lemma_digit_char(c % 10);
    assert forall|k: int| 0 <= k < dg.len() implies t[k] != '.' by {
        assert(t[k] == dg[k]);
        assert(is_digit(dg[k]));
    }
    lemma_char_from_at(t, '.', 0, dg.len() as int);
    assert(t.subrange(0, dg.len() as int) =~= dg);
    let frac = if dg.len() < t.len() {
        t.subrange(dg.len() as int + 1, t.len() as int)
    } else {
        Seq::<char>::empty()
    };
    if c == 0 {
        assert(frac =~= Seq::<char>::empty());
    } else if c % 10 == 0 {
        assert(frac =~= seq![digit_char(c / 10)]);
        assert((c / 10) * 10 == c) by (nonlinear_arith)
            requires
                c % 10 == 0,
        ;
    } else {
        assert(frac =~= seq![digit_char(c / 10), digit_char(c % 10)]);
        assert((c / 10) * 10 + c % 10 == c) by (nonlinear_arith);
    }
    assert(fraction_cents(frac) == c);
    assert((v / 100) as nat * 100 + c == v) by (nonlinear_arith)
        requires
            c == v % 100,
    ;
    assert forall|i: int| 0 <= i < t.len() implies is_digit(#[trigger] t[i]) || t[i] == '.' by {
        if i < dg.len() {
            assert(t[i] == dg[i]);
        }
    }
}

/// The text of a line item holds no tab, and no newline where its name holds
/// none.
proof fn lemma_part_chars(p: PartModel)
    requires
        plain_name(p.name),
    ensures
        forall|i: int|
            0 <= i < part_text(p).len() ==> #[trigger] part_text(p)[i] != '\t' && part_text(p)[i]
                != '\n',
{
    let dg = digits_of(p.name.len());
    let at = amount_text(p.value);
    let ft = flag_text(p.expandable);
    lemma_digits_of(p.name.len());
    lemma_amount_round_trip(p.value);
    let t = part_text(p);
    assert forall|i: int| 0 <= i < t.len() implies #[trigger] t[i] != '\t' && t[i] != '\n' by {
        let a = dg.len() + 1;
        let b = a + p.name.len();
        let m = b + at.len();
        if i < dg.len() {
            assert(t[i] == dg[i]);
            assert(is_digit(dg[i]));
        } else if i < a {
            assert(t[i] == '?');
        } else if i < b {
            assert(t[i] == p.name[i - a]);
        } else if i < m {
            assert(t[i] == at[i - b]);
            assert(is_digit(at[i - b]) || at[i - b] == '.');
        } else if i == m {
            assert(t[i] == '?');
        } else {
            assert(t[i] == ft[i - m - 1]);
        }
    }
}

/// Reading back the text of any line item gives that item: the same name,
/// whatever characters it holds (separators and digits included), the same
/// monthly value and the same flag.
pub proof fn lemma_part_round_trip(p: PartModel)
    ensures
        part_of(part_text(p)) == Ok::<PartModel, DecodeError>(p),
{
    let dg = digits_of(p.name.len());
    let at = amount_text(p.value);
    let ft = flag_text(p.expandable);
    lemma_digits_of(p.name.len());
    lemma_amount_round_trip(p.value);
    let s = part_text(p);
    let k = dg.len() as int;
    let a = k + 1;
    let b = a + p.name.len();
    let m = b + at.len();
    assert forall|i: int| 0 <= i < k implies is_digit(s[i]) by {
        assert(s[i] == dg[i]);
    }
    assert(s[k] == '?');
    lemma_digit_run_at(s, 0, k);
    assert(s.subrange(0, k) =~= dg);
    assert(s.subrange(a, b) =~= p.name);
    assert forall|i: int| b <= i < m implies is_digit(s[i]) || s[i] == '.' by {
        assert(s[i] == at[i - b]);
    }
    assert(s[m] == '?');
    lemma_number_run_at(s, b, m);
    assert(s.subrange(b, m) =~= at);
    assert(s.subrange(m + 1, s.len() as int) =~= ft);
    assert(flag_text(true).len() != flag_text(false).len());
}

/// The text of the first `k` items is a prefix of the text of all of them.
proof fn lemma_section_prefix(ps: Seq<PartModel>, k: int)
    requires
        0 <= k <= ps.len(),
    ensures
        section_text(ps.take(k)).len() <= section_text(ps).len(),
        section_text(ps).subrange(0, section_text(ps.take(k)).len() as int) == section_text(
            ps.take(k),
        ),
    decreases ps.len(),
{
    if k == ps.len() {
        assert(ps.take(k) =~= ps);
        assert(section_text(ps).subrange(0, section_text(ps).len() as int) =~= section_text(ps));
    } else {
        let init = ps.drop_last();
        lemma_section_prefix(init, k);
        assert(ps.take(k) =~= init.take(k));
        let pre = section_text(init.take(k));
        assert(section_text(ps).subrange(0, pre.len() as int) =~= section_text(init).subrange(
            0,
            pre.len() as int,
        ));
    }
}

proof fn lemma_section_step(ps: Seq<PartModel>, k: int)
    requires
        0 <= k < ps.len(),
    ensures
        section_text(ps.take(k + 1)) == section_text(ps.take(k)) + part_text(ps[k]) + seq!['\t'],
{
    assert(ps.take(k + 1).drop_last() =~= ps.take(k));
}

/// Characters without a tab do not end the record being scanned.
proof fn lemma_scan(s: Seq<char>, start: int, i: int, j: int)
    requires
        0 <= i <= j <= s.len(),
        forall|k: int| i <= k < j ==> s[k] != '\t',
    ensures
        section_from(s, start, i) == section_from(s, start, j),
    decreases j - i,
{
    if i < j {
        lemma_scan(s, start, i + 1, j);
    }
}

/// Read from the start of its `k`-th item, a section's text gives the items
/// from there on.
proof fn lemma_section_parse(ps: Seq<PartModel>, k: int)
    requires
        0 <= k <= ps.len(),
        forall|i: int| 0 <= i < ps.len() ==> plain_name((#[trigger] ps[i]).name),
    ensures
        section_from(
            section_text(ps),
            section_text(ps.take(k)).len() as int,
            section_text(ps.take(k)).len() as int,
        ) == Ok::<Seq<PartModel>, DecodeError>(ps.skip(k)),
    decreases ps.len() - k,
{
    let s = section_text(ps);
    let o = section_text(ps.take(k)).len() as int;
    if k == ps.len() {
        assert(ps.take(k) =~= ps);
        assert(ps.skip(k) =~= Seq::<PartModel>::empty());
    } else {
        let p = ps[k];
        let pt = part_text(p);
        lemma_section_prefix(ps, k + 1);
        lemma_section_step(ps, k);
        lemma_part_chars(p);
        lemma_part_round_trip(p);
        let j = o + pt.len();
        let whole = section_text(ps.take(k + 1));
        assert forall|x: int| o <= x < j implies s[x] != '\t' by {
            assert(s[x] == s.subrange(0, whole.len() as int)[x]);
            assert(whole[x] == pt[x - o]);
        }
        assert(s[j] == s.subrange(0, whole.len() as int)[j]);
        assert(s[j] == '\t');
        lemma_scan(s, o, o, j);
        assert(s.subrange(o, j) =~= pt) by {
            assert forall|x: int| 0 <= x < pt.len() implies s.subrange(o, j)[x] == pt[x] by {
                assert(s[o + x] == s.subrange(0, whole.len() as int)[o + x]);
                assert(whole[o + x] == pt[x]);
            }
        }
        lemma_section_parse(ps, k + 1);
        assert(seq![p] + ps.skip(k + 1) =~= ps.skip(k));
    }
}

proof fn lemma_section_no_newline(ps: Seq<PartModel>)
    requires
        forall|i: int| 0 <= i < ps.len() ==> plain_name((#[trigger] ps[i]).name),
    ensures
        forall|i: int| 0 <= i < section_text(ps).len() ==> #[trigger] section_text(ps)[i] != '\n',
    decreases ps.len(),
{
    if ps.len() > 0 {
        let init = ps.drop_last();
        assert forall|i: int| 0 <= i < init.len() implies plain_name((#[trigger] init[i]).name) by {
            assert(init[i] == ps[i]);
        }
        lemma_section_no_newline(init);
        assert(plain_name(ps[ps.len() - 1].name));
        lemma_part_chars(ps.last());
        let a = section_text(init);
        let pt = part_text(ps.last());
        assert forall|i: int| 0 <= i < section_text(ps).len() implies #[trigger] section_text(ps)[i]
            != '\n' by {
            if i < a.len() {
                assert(section_text(ps)[i] == a[i]);
            } else if i < a.len() + pt.len() {
                assert(section_text(ps)[i] == pt[i - a.len()]);
            }
        }
    }
}

/// Reading back the text of a budget gives the same budget: the same items,
/// in the same order, in the same sections. This holds for every budget
/// whose names hold no tab and no newline.
pub proof fn lemma_round_trip(b: BudgetModel)
    requires
        forall|i: int| 0 <= i < b.fixed.len() ==> plain_name((#[trigger] b.fixed[i]).name),
        forall|i: int| 0 <= i < b.expandable.len() ==> plain_name((#[trigger] b.expandable[i]).name),
    ensures
        budget_of(budget_text(b)) == Ok::<BudgetModel, DecodeError>(b),
{
    let ft = section_text(b.fixed);
    let xt = section_text(b.expandable);
    let s = budget_text(b);
    lemma_section_no_newline(b.fixed);
    assert forall|k: int| 0 <= k < ft.len() implies s[k] != '\n' by {
        assert(s[k] == ft[k]);
    }
    lemma_char_from_at(s, '\n', 0, ft.len() as int);
    assert(s.subrange(0, ft.len() as int) =~= ft);
    assert(s.subrange(ft.len() as int + 1, s.len() as int) =~= xt);
    lemma_section_parse(b.fixed, 0);
    lemma_section_parse(b.expandable, 0);
    assert(b.fixed.take(0) =~= Seq::<PartModel>::empty());
    assert(b.expandable.take(0) =~= Seq::<PartModel>::empty());
    assert(b.fixed.skip(0) =~= b.fixed);
    assert(b.expandable.skip(0) =~= b.expandable);
}

} // verus!
