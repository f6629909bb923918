//! Text for readers: decimal digits, thousands separators, joined labels.
use vstd::prelude::*;
use vstd::string::{StrSliceExecFns, StringExecFns};
use crate::label::Label;

verus! {

/// Relies on `String::push`: the character is appended at the end.
#[verifier::external_body]
pub(crate) fn push_char(s: &mut String, c: char)
    ensures
        final(s)@ == old(s)@.push(c),
{
    s.push(c)
}

/// The decimal digit character for `d < 10`.
pub open spec fn digit_char(d: nat) -> char {
    if d == 0 {
        '0'
    } else if d == 1 {
        '1'
    } else if d == 2 {
        '2'
    } else if d == 3 {
        '3'
    } else if d == 4 {
        '4'
    } else if d == 5 {
        '5'
    } else if d == 6 {
        '6'
    } else if d == 7 {
        '7'
    } else if d == 8 {
        '8'
    } else {
        '9'
    }
}

/// The decimal notation of `n`, without leading zeros.
pub open spec fn decimal_of(n: nat) -> Seq<char>
    decreases n,
{
    if n < 10 {
        seq![digit_char(n)]
    } else {
        decimal_of(n / 10).push(digit_char(n % 10))
    }
}

/// `p` with a comma before every third character counted from its end, as
/// long as more than `lim` characters stay before the comma.
pub open spec fn group_digits(p: Seq<char>, lim: nat) -> Seq<char>
    decreases p.len(),
{
    if p.len() >= lim + 4 {
        group_digits(p.subrange(0, p.len() - 3), lim) + seq![','] + p.subrange(
            p.len() - 3,
            p.len() as int,
        )
    } else {
        p
    }
}

/// Index of the first `c` in `s`, or the length of `s` when there is none.
pub open spec fn index_of(s: Seq<char>, c: char) -> int
    decreases s.len(),
{
    if s.len() == 0 {
        0
    } else if s[0] == c {
        0
    } else {
        1 + index_of(s.drop_first(), c)
    }
}

/// A number written out with commas between groups of three digits left of
/// the decimal point; a leading sign is never followed by a comma.
pub open spec fn with_commas(s: Seq<char>) -> Seq<char> {
    let e = index_of(s, '.');
    let lim: nat = if s.contains('-') {
        1
    } else {
        0
    };
    group_digits(s.subrange(0, e), lim) + s.subrange(e, s.len() as int)
}

/// A count of tenths as a reader sees it: whole part with commas, and the
/// tenth only when it is not zero.
pub open spec fn tenths_text(t: nat) -> Seq<char> {
    group_digits(decimal_of(t / 10), 0) + if t % 10 == 0 {
        Seq::<char>::empty()
    } else {
        seq!['.', digit_char(t % 10)]
    }
}

/// The labels shown one after the other, with `sep` between two of them.
pub open spec fn joined<L: Label>(s: Seq<L>, sep: char) -> Seq<char>
    decreases s.len(),
{
    if s.len() == 0 {
        Seq::<char>::empty()
    } else if s.len() == 1 {
        s[0].shown()
    } else {
        joined(s.drop_last(), sep).push(sep) + s.last().shown()
    }
}

fn digit(d: u128) -> (c: char)
    requires
        d < 10,
    ensures
        c == digit_char(d as nat),
{
    if d == 0 {
        '0'
    } else if d == 1 {
        '1'
    } else if d == 2 {
        '2'
    } else if d == 3 {
        '3'
    } else if d == 4 {
        '4'
    } else if d == 5 {
        '5'
    } else if d == 6 {
        '6'
    } else if d == 7 {
        '7'
    } else if d == 8 {
        '8'
    } else {
        '9'
    }
}

fn string_of(cs: &Vec<char>) -> (r: String)
    ensures
        r@ == cs@,
{
    let mut r = String::new();
    let mut i: usize = 0;
    while i < cs.len()
        invariant
            i <= cs@.len(),
            r@ == cs@.subrange(0, i as int),
        decreases cs@.len() - i,
    {
        push_char(&mut r, cs[i]);
        assert(cs@.subrange(0, i + 1) =~= cs@.subrange(0, i as int).push(cs@[i as int]));
        i = i + 1;
    }
    assert(cs@.subrange(0, cs@.len() as int) =~= cs@);
    r
}

fn chars_of(s: &str) -> (r: Vec<char>)
    ensures
        r@ == s@,
{
    let n = s.unicode_len();
    let mut r: Vec<char> = Vec::new();
    let mut i: usize = 0;
    while i < n
        invariant
            n == s@.len(),
            i <= n,
            r@ == s@.subrange(0, i as int),
        decreases n - i,
    {
        r.push(s.get_char(i));
        assert(s@.subrange(0, i + 1) =~= s@.subrange(0, i as int).push(s@[i as int]));
        i = i + 1;
    }
    assert(s@.subrange(0, n as int) =~= s@);
    r
}

fn decimal_chars(n: u128) -> (r: Vec<char>)
    ensures
        r@ == decimal_of(n as nat),
{
    let mut tail: Vec<char> = Vec::new();
    let mut m: u128 = n;
    while m >= 10
        invariant
            decimal_of(n as nat) == decimal_of(m as nat) + tail@,
        decreases m,
    {
        let d = digit(m % 10);
        let ghost before = tail@;
        tail.insert(0, d);
        proof {
            assert(decimal_of(m as nat) == decimal_of((m / 10) as nat).push(d));
            assert(decimal_of((m / 10) as nat).push(d) + before =~= decimal_of((m / 10) as nat)
                + tail@);
        }
        m = m / 10;
    }
    let d = digit(m);
    tail.insert(0, d);
    assert(decimal_of(n as nat) =~= tail@);
    tail
}

/// The decimal notation of `n`.
pub fn decimal(n: u128) -> (r: String)
    ensures
        r@ == decimal_of(n as nat),
{
    string_of(&decimal_chars(n))
}

proof fn lemma_group_head(p: Seq<char>, lim: nat, c: int)
    requires
        0 <= c <= p.len(),
        c < lim + 4,
    ensures
        group_digits(p.subrange(0, c), lim) == p.subrange(0, c),
{
}

proof fn lemma_group_step(p: Seq<char>, lim: nat, i: int)
    requires
        lim + 1 <= i,
        i + 3 <= p.len(),
    ensures
        group_digits(p.subrange(0, i + 3), lim) == group_digits(p.subrange(0, i), lim) + seq![','] + seq![
            p[i],
            p[i + 1],
            p[i + 2],
        ],
{
    let q = p.subrange(0, i + 3);
    assert(q.subrange(0, q.len() - 3) =~= p.subrange(0, i));
    assert(q.subrange(q.len() - 3, q.len() as int) =~= seq![p[i], p[i + 1], p[i + 2]]);
}

fn group_chars(p: &Vec<char>, lim: usize) -> (r: Vec<char>)
    requires
        lim <= 1,
    ensures
        r@ == group_digits(p@, lim as nat),
{
    let e = p.len();
    let c: usize = if e < lim + 4 {
        e
    } else {
        lim + (e - lim - 1) % 3 + 1
    };
    assert(c == e || (c >= lim + 1 && (e - c) % 3 == 0));
    let mut out: Vec<char> = Vec::new();
    let mut i: usize = 0;
    while i < c
        invariant
            c <= e == p@.len(),
            i <= c,
            out@ == p@.subrange(0, i as int),
        decreases c - i,
    {
        out.push(p[i]);
        assert(p@.subrange(0, i + 1) =~= p@.subrange(0, i as int).push(p@[i as int]));
        i = i + 1;
    }
    proof {
        lemma_group_head(p@, lim as nat, c as int);
    }
    while i < e
        invariant
            c <= i <= e == p@.len(),
            (e - i) % 3 == 0,
            i >= lim + 1 || i == e,
            lim <= 1,
            out@ == group_digits(p@.subrange(0, i as int), lim as nat),
        decreases e - i,
    {
        proof {
            lemma_group_step(p@, lim as nat, i as int);
        }
        out.push(',');
        out.push(p[i]);
        out.push(p[i + 1]);
        out.push(p[i + 2]);
        assert(out@ =~= group_digits(p@.subrange(0, i as int), lim as nat) + seq![','] + seq![
            p@[i as int],
            p@[i + 1],
            p@[i + 2],
        ]);
        i = i + 3;
    }
    assert(p@.subrange(0, e as int) =~= p@);
    out
}

/// Formats a number with commas.
///
/// Takes the number as written (an integer, a signed integer, or one with a
/// decimal point) and puts a comma between groups of three digits left of
/// the point.
pub fn fmt_num(s: &str) -> (r: String)
    ensures
        r@ == with_commas(s@),
{
    let cs = chars_of(s);
    let n = cs.len();
    let mut e: usize = 0;
    while e < n && cs[e] != '.'
        invariant
            n == cs@.len(),
            e <= n,
            forall|j: int| 0 <= j < e ==> cs@[j] != '.',
        decreases n - e,
    {
        e = e + 1;
    }
    proof {
        lemma_index_of(cs@, '.', e as int);
    }
    let mut neg = false;
    let mut k: usize = 0;
    while k < n
        invariant
            n == cs@.len(),
            k <= n,
            neg <==> exists|j: int| 0 <= j < k && cs@[j] == '-',
        decreases n - k,
    {
        if cs[k] == '-' {
            neg = true;
        }
        k = k + 1;
    }
    let lim: usize = if neg {
        1
    } else {
        0
    };
    let mut head: Vec<char> = Vec::new();
    let mut i: usize = 0;
    while i < e
        invariant
            e <= n == cs@.len(),
            i <= e,
            head@ == cs@.subrange(0, i as int),
        decreases e - i,
    {
        head.push(cs[i]);
        assert(cs@.subrange(0, i + 1) =~= cs@.subrange(0, i as int).push(cs@[i as int]));
        i = i + 1;
    }
    let mut out = group_chars(&head, lim);
    let ghost grouped = out@;
    while i < n
        invariant
            e <= i <= n == cs@.len(),
            out@ == grouped + cs@.subrange(e as int, i as int),
        decreases n - i,
    {
        out.push(cs[i]);
        assert(cs@.subrange(e as int, i + 1) =~= cs@.subrange(e as int, i as int).push(
            cs@[i as int],
        ));
        i = i + 1;
    }
    proof {
        assert(neg <==> cs@.contains('-'));
    }
    string_of(&out)
}

proof fn lemma_index_of(s: Seq<char>, c: char, i: int)
    requires
        0 <= i <= s.len(),
        forall|j: int| 0 <= j < i ==> s[j] != c,
        i < s.len() ==> s[i] == c,
    ensures
        index_of(s, c) == i,
    decreases i,
{
    if i > 0 {
        assert(s[0] != c);
        lemma_index_of(s.drop_first(), c, i - 1);
    }
}

/// Writes a count of tenths, e.g. `15` as `1.5` and `50` as `5`.
pub fn fmt_tenths(t: u128) -> (r: String)
    ensures
        r@ == tenths_text(t as nat),
{
    let whole = decimal_chars(t / 10);
    let mut out = group_chars(&whole, 0);
    if t % 10 != 0 {
        out.push('.');
        out.push(digit(t % 10));
    }
    assert(out@ =~= tenths_text(t as nat));
    string_of(&out)
}

/// Join labels into one string with a separator.
pub fn join<L: Label>(lbls: &Vec<L>, sep: char) -> (r: String)
    ensures
        r@ == joined(lbls@, sep),
{
    let mut out = String::new();
    let mut i: usize = 0;
    while i < lbls.len()
        invariant
            i <= lbls@.len(),
            out@ == joined(lbls@.subrange(0, i as int), sep),
        decreases lbls@.len() - i,
    {
        let ghost before = out@;
        if i > 0 {
            push_char(&mut out, sep);
        }
        let t = lbls[i].text();
        out.append(t.as_str());
        proof {
            let q = lbls@.subrange(0, i + 1);
            assert(q.drop_last() =~= lbls@.subrange(0, i as int));
            assert(out@ =~= joined(q, sep));
        }
        i = i + 1;
    }
    assert(lbls@.subrange(0, lbls@.len() as int) =~= lbls@);
    out
}

/// A count as a reader sees it, with commas between groups of three digits.
pub open spec fn count_text(v: nat) -> Seq<char> {
    group_digits(decimal_of(v), 0)
}

/// Writes a count with commas, e.g. `1234567` as `1,234,567`.
pub fn fmt_count(v: u64) -> (r: String)
    ensures
        r@ == count_text(v as nat),
{
    let d = decimal_chars(v as u128);
    string_of(&group_chars(&d, 0))
}

} // verus!
