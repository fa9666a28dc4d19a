//! Verified text helpers: splitting on a separator character, decimal
//! parsing and decimal formatting. The ledger's line format and the filter
//! specifications are built out of these.

use vstd::prelude::*;

verus! {

/// Splitting a character sequence on a separator, in the way `str::split`
/// does it: `n` separators give `n + 1` (possibly empty) segments.
pub open spec fn split_spec(s: Seq<char>, sep: char) -> Seq<Seq<char>>
    decreases s.len(),
{
    if s.len() == 0 {
        seq![Seq::<char>::empty()]
    } else if s[0] == sep {
        seq![Seq::<char>::empty()] + split_spec(s.drop_first(), sep)
    } else {
        let rest = split_spec(s.drop_first(), sep);
        seq![seq![s[0]] + rest[0]] + rest.drop_first()
    }
}

/// A split has at least one segment.
pub proof fn lemma_split_len(s: Seq<char>, sep: char)
    ensures
        split_spec(s, sep).len() >= 1,
    decreases s.len(),
{
    if s.len() != 0 {
        lemma_split_len(s.drop_first(), sep);
    }
}

/// Split the characters of `s` on `sep`, returning owned segments.
pub fn split_string(s: &str, from: usize, sep: char) -> (r: Vec<String>)
    requires
        from <= s@.len(),
    ensures
        r.deep_view() == split_spec(s@.subrange(from as int, s@.len() as int), sep),
    decreases s@.len() - from,
{
    let ghost tail = s@.subrange(from as int, s@.len() as int);
    proof {
        lemma_split_len(tail.drop_first(), sep);
    }
    if from == s.unicode_len() {
        let r: Vec<String> = vec![String::new()];
        proof {
            assert(tail =~= Seq::<char>::empty());
            assert(r.deep_view() =~~= split_spec(tail, sep));
        }
        r
    } else {
        let c = s.get_char(from);
        proof {
            assert(tail[0] == s@[from as int]);
            assert(tail.drop_first() =~= s@.subrange(from + 1, s@.len() as int));
        }
        let mut rest = split_string(s, from + 1, sep);
        proof {
            lemma_split_len(s@.subrange(from + 1, s@.len() as int), sep);
            assert(rest@.len() >= 1);
        }
        if c == sep {
            rest.insert(0, String::new());
            proof {
                assert(rest.deep_view() =~~= split_spec(tail, sep));
            }
            rest
        } else {
            let head = s.substring_char(from, from + 1);
            let mut joined = String::from_str(head);
            let old_first = rest.remove(0);
            joined.append(old_first.as_str());
            rest.insert(0, joined);
            proof {
                assert(joined@ =~= seq![tail[0]] + split_spec(tail.drop_first(), sep)[0]);
                assert(rest.deep_view() =~~= split_spec(tail, sep));
            }
            rest
        }
    }
}

/// Character-by-character string equality.
pub fn str_eq(a: &str, b: &str) -> (r: bool)
    ensures
        r == (a@ == b@),
{
    let na = a.unicode_len();
    let nb = b.unicode_len();
    if na != nb {
        return false;
    }
    let mut i: usize = 0;
    while i < na
        invariant
            0 <= i <= na,
            na == a@.len(),
            na == b@.len(),
            forall|j: int| 0 <= j < i ==> a@[j] == b@[j],
        decreases na - i,
    {
        if a.get_char(i) != b.get_char(i) {
            return false;
        }
        i += 1;
    }
    proof {
        assert(a@ =~= b@);
    }
    true
}

// ---- decimal parsing ----

pub open spec fn is_digit(c: char) -> bool {
    '0' <= c <= '9'
}

pub open spec fn digit_val(c: char) -> int {
    c as int - '0' as int
}

pub open spec fn all_digits(s: Seq<char>) -> bool {
    forall|i: int| 0 <= i < s.len() ==> is_digit(s[i])
}

/// The value of a possibly empty string of decimal digits.
pub open spec fn digits_val(s: Seq<char>) -> int
    decreases s.len(),
{
    if s.len() == 0 {
        0
    } else {
        digits_val(s.drop_last()) * 10 + digit_val(s.last())
    }
}

proof fn lemma_digits_val_nonneg(s: Seq<char>)
    requires
        all_digits(s),
    ensures
        digits_val(s) >= 0,
    decreases s.len(),
{
    if s.len() != 0 {
        lemma_digits_val_nonneg(s.drop_last());
    }
}

/// Extending an all-digit string can only grow its value.
proof fn lemma_digits_val_prefix(s: Seq<char>, j: int)
    requires
        all_digits(s),
        0 <= j <= s.len(),
    ensures
        digits_val(s.subrange(0, j)) <= digits_val(s),
    decreases s.len() - j,
{
    if j < s.len() {
        let t = s.subrange(0, j + 1);
        assert(t.drop_last() =~= s.subrange(0, j));
        assert(all_digits(s.subrange(0, j)));
        lemma_digits_val_nonneg(s.subrange(0, j));
        assert(digits_val(s.subrange(0, j)) <= digits_val(t));
        lemma_digits_val_prefix(s, j + 1);
    } else {
        assert(s.subrange(0, j) =~= s);
    }
}

/// What `str::parse::<i64>` accepts: an optional sign followed by at least
/// one decimal digit, the value within `i64` range.
pub open spec fn parse_i64_spec(s: Seq<char>) -> Option<int> {
    let neg = s.len() > 0 && s[0] == '-';
    let ds = if s.len() > 0 && (s[0] == '-' || s[0] == '+') {
        s.drop_first()
    } else {
        s
    };
    if ds.len() == 0 || !all_digits(ds) {
        None
    } else {
        let v = if neg {
            -digits_val(ds)
        } else {
            digits_val(ds)
        };
        if i64::MIN <= v <= i64::MAX {
            Some(v)
        } else {
            None
        }
    }
}

/// Parse a decimal `i64` with the same acceptance rule as `str::parse::<i64>`.
pub fn parse_i64(s: &str) -> (r: Option<i64>)
    ensures
        match r {
            Some(v) => parse_i64_spec(s@) == Some(v as int),
            None => parse_i64_spec(s@) is None,
        },
{
    let n = s.unicode_len();
    let mut i: usize = 0;
    let mut neg = false;
    if n > 0 {
        let c0 = s.get_char(0);
        if c0 == '-' {
            neg = true;
            i = 1;
        } else if c0 == '+' {
            i = 1;
        }
    }
    let ghost ds = if i == 1 {
        s@.drop_first()
    } else {
        s@
    };
    if i == n {
        // empty input, or a bare sign
        return None;
    }
    let mut mag: i128 = 0;
    let ghost start = i as int;
    proof {
        if i == 1 {
            assert(ds =~= s@.subrange(1, n as int));
        } else {
            assert(ds =~= s@.subrange(0, n as int));
        }
    }
    while i < n
        invariant
            start <= i <= n,
            start < n,
            n == s@.len(),
            neg == (s@.len() > 0 && s@[0] == '-'),
            start == if s@.len() > 0 && (s@[0] == '-' || s@[0] == '+') { 1int } else { 0int },
            ds == s@.subrange(start, n as int),
            ds == if start == 1 { s@.drop_first() } else { s@ },
            all_digits(s@.subrange(start, i as int)),
            mag == digits_val(s@.subrange(start, i as int)),
            0 <= mag <= 0x8000_0000_0000_0000i128,
        decreases n - i,
    {
        let c = s.get_char(i);
        if c < '0' || c > '9' {
            proof {
                assert(ds[i - start] == s@[i as int]);
                assert(!all_digits(ds));
            }
            return None;
        }
        let d = (c as u32) - ('0' as u32);
        mag = mag * 10 + d as i128;
        proof {
            let t = s@.subrange(start, i + 1);
            assert(t.drop_last() =~= s@.subrange(start, i as int));
            assert(t.last() == s@[i as int]);
        }
        i += 1;
        if mag > 0x8000_0000_0000_0000i128 {
            // magnitude already beyond any i64; the rest can only grow it
            proof {
                assert(s@.subrange(start, i as int) =~= ds.subrange(0, i - start));
                if all_digits(ds) {
                    lemma_digits_val_prefix(ds, i - start);
                    lemma_digits_val_nonneg(ds);
                }
            }
            return None;
        }
    }
    proof {
        assert(s@.subrange(start, i as int) =~= ds);
        assert(ds.len() > 0);
        assert(mag == digits_val(ds));
    }
    if neg {
        Some((-mag) as i64)
    } else {
        if mag > i64::MAX as i128 {
            return None;
        }
        Some(mag as i64)
    }
}

// ---- decimal formatting ----

pub open spec fn dec_digit(n: int) -> char {
    if n == 0 {
        '0'
    } else if n == 1 {
        '1'
    } else if n == 2 {
        '2'
    } else if n == 3 {
        '3'
    } else if n == 4 {
        '4'
    } else if n == 5 {
        '5'
    } else if n == 6 {
        '6'
    } else if n == 7 {
        '7'
    } else if n == 8 {
        '8'
    } else {
        '9'
    }
}

/// The decimal rendering of a natural number, most significant digit first.
pub open spec fn dec_str_nat(n: nat) -> Seq<char>
    decreases n,
{
    if n < 10 {
        seq![dec_digit(n as int)]
    } else {
        dec_str_nat(n / 10).push(dec_digit((n % 10) as int))
    }
}

/// The decimal rendering of a signed value, as `i64::to_string` gives it.
pub open spec fn dec_str_i64(v: int) -> Seq<char> {
    if v < 0 {
        seq!['-'] + dec_str_nat((-v) as nat)
    } else {
        dec_str_nat(v as nat)
    }
}

/// The decimal rendering of a natural number is all digits and denotes
/// that number.
pub proof fn lemma_dec_str_nat_digits(n: nat)
    ensures
        all_digits(dec_str_nat(n)),
        digits_val(dec_str_nat(n)) == n,
        dec_str_nat(n).len() >= 1,
    decreases n,
{
    let s = dec_str_nat(n);
    if n < 10 {
        assert(s.drop_last() =~= Seq::<char>::empty());
        assert(digits_val(Seq::<char>::empty()) == 0);
        assert(s.last() == dec_digit(n as int));
        assert(digits_val(s) == digit_val(dec_digit(n as int)));
    } else {
        lemma_dec_str_nat_digits(n / 10);
        vstd::arithmetic::div_mod::lemma_fundamental_div_mod(n as int, 10);
        let init = dec_str_nat(n / 10);
        assert(s.drop_last() =~= init);
        assert(s.last() == dec_digit((n % 10) as int));
        assert forall|i: int| 0 <= i < s.len() implies is_digit(s[i]) by {
            if i < s.len() - 1 {
                assert(s[i] == init[i]);
            }
        }
    }
}

/// The decimal renderings parse back to the value they were made from.
pub proof fn lemma_parse_dec_round_trip(v: int)
    requires
        i64::MIN <= v <= i64::MAX,
    ensures
        parse_i64_spec(dec_str_i64(v)) == Some(v),
{
    if v >= 0 {
        let s = dec_str_nat(v as nat);
        lemma_dec_str_nat_digits(v as nat);
        assert(is_digit(s[0]));
    } else {
        let m = (-v) as nat;
        lemma_dec_str_nat_digits(m);
        let s = dec_str_i64(v);
        assert(s[0] == '-');
        assert(s.drop_first() =~= dec_str_nat(m));
    }
}

/// A sequence free of the separator splits to itself alone.
pub proof fn lemma_split_solid(a: Seq<char>, sep: char)
    requires
        !a.contains(sep),
    ensures
        split_spec(a, sep) == seq![a],
    decreases a.len(),
{
    if a.len() == 0 {
        assert(a =~= Seq::<char>::empty());
        assert(split_spec(a, sep) =~~= seq![a]);
    } else {
        assert(a[0] != sep) by {
            if a[0] == sep {
                assert(a.contains(sep));
            }
        }
        assert(!a.drop_first().contains(sep)) by {
            if a.drop_first().contains(sep) {
                let i = choose|i: int| 0 <= i < a.drop_first().len() && a.drop_first()[i] == sep;
                assert(a[i + 1] == sep);
                assert(a.contains(sep));
            }
        }
        lemma_split_solid(a.drop_first(), sep);
        assert(seq![a.drop_first()][0] == a.drop_first());
        assert(split_spec(a, sep) =~~= seq![seq![a[0]] + a.drop_first()]);
        assert(seq![a[0]] + a.drop_first() =~= a);
        assert(split_spec(a, sep) =~~= seq![a]);
    }
}

/// Splitting at the first separator: a separator-free prefix becomes the
/// first segment, the rest splits on its own.
pub proof fn lemma_split_at_sep(a: Seq<char>, b: Seq<char>, sep: char)
    requires
        !a.contains(sep),
    ensures
        split_spec(a + seq![sep] + b, sep) == seq![a] + split_spec(b, sep),
    decreases a.len(),
{
    let s = a + seq![sep] + b;
    if a.len() == 0 {
        assert(s[0] == sep);
        assert(s.drop_first() =~= b);
        assert(a =~= Seq::<char>::empty());
        assert(split_spec(s, sep) =~~= seq![a] + split_spec(b, sep));
    } else {
        assert(s[0] == a[0]);
        assert(a[0] != sep) by {
            if a[0] == sep {
                assert(a.contains(sep));
            }
        }
        assert(!a.drop_first().contains(sep)) by {
            if a.drop_first().contains(sep) {
                let i = choose|i: int| 0 <= i < a.drop_first().len() && a.drop_first()[i] == sep;
                assert(a[i + 1] == sep);
                assert(a.contains(sep));
            }
        }
        assert(s.drop_first() =~= a.drop_first() + seq![sep] + b);
        lemma_split_at_sep(a.drop_first(), b, sep);
        let rest = split_spec(s.drop_first(), sep);
        assert(rest == seq![a.drop_first()] + split_spec(b, sep));
        assert(rest[0] == a.drop_first());
        assert(rest.drop_first() =~~= split_spec(b, sep));
        assert(seq![a[0]] + a.drop_first() =~= a);
        assert(split_spec(s, sep) =~~= seq![a] + split_spec(b, sep));
    }
}

/// No character of a decimal rendering is anything but a digit or the
/// leading minus sign.
pub proof fn lemma_dec_str_free_of(v: int, c: char)
    requires
        !is_digit(c),
        c != '-',
    ensures
        !dec_str_i64(v).contains(c),
{
    let s = dec_str_i64(v);
    if v >= 0 {
        lemma_dec_str_nat_digits(v as nat);
        if s.contains(c) {
            let i = choose|i: int| 0 <= i < s.len() && s[i] == c;
            assert(is_digit(s[i]));
        }
    } else {
        lemma_dec_str_nat_digits((-v) as nat);
        if s.contains(c) {
            let i = choose|i: int| 0 <= i < s.len() && s[i] == c;
            if i > 0 {
                assert(s[i] == dec_str_nat((-v) as nat)[i - 1]);
                assert(is_digit(s[i]));
            }
        }
    }
}

fn digit_str(d: u64) -> (r: &'static str)
    requires
        d < 10,
    ensures
        r@ == seq![dec_digit(d as int)],
{
    let r: &'static str = match d {
        0 => "0",
        1 => "1",
        2 => "2",
        3 => "3",
        4 => "4",
        5 => "5",
        6 => "6",
        7 => "7",
        8 => "8",
        _ => "9",
    };
    proof {
        reveal_strlit("0");
        reveal_strlit("1");
        reveal_strlit("2");
        reveal_strlit("3");
        reveal_strlit("4");
        reveal_strlit("5");
        reveal_strlit("6");
        reveal_strlit("7");
        reveal_strlit("8");
        reveal_strlit("9");
        assert(r@ =~= seq![dec_digit(d as int)]);
    }
    r
}

/// Format a natural number in decimal.
pub fn u64_to_dec(n: u64) -> (r: String)
    ensures
        r@ == dec_str_nat(n as nat),
    decreases n,
{
    if n < 10 {
        String::from_str(digit_str(n))
    } else {
        proof {
            assert(n / 10 < n) by (nonlinear_arith)
                requires
                    n >= 10,
            ;
        }
        let mut s = u64_to_dec(n / 10);
        s.append(digit_str(n % 10));
        proof {
            assert(s@ =~= dec_str_nat(n as nat));
        }
        s
    }
}

/// Format a signed value in decimal, as `i64::to_string` does.
pub fn i64_to_dec(v: i64) -> (r: String)
    ensures
        r@ == dec_str_i64(v as int),
{
    if v >= 0 {
        u64_to_dec(v as u64)
    } else {
        let mag: u64 = (-(v as i128)) as u64;
        let mut s = String::from_str("-");
        let digits = u64_to_dec(mag);
        s.append(digits.as_str());
        proof {
            reveal_strlit("-");
            assert(s@ =~= dec_str_i64(v as int));
        }
        s
    }
}

} // verus!
