use vstd::prelude::*;
use vstd::string::StrSliceExecFns;

verus! {

pub open spec fn digit_char(d: nat) -> char
    recommends
        d < 10,
{
    seq!['0', '1', '2', '3', '4', '5', '6', '7', '8', '9'][d as int]
}

pub open spec fn is_digit(c: char) -> bool {
    '0' <= c && c <= '9'
}

pub open spec fn digit_value(c: char) -> nat {
    ((c as u32) - ('0' as u32)) as nat
}

/// The decimal text of `n`, without leading zeros.
pub open spec fn decimal(n: nat) -> Seq<char>
    decreases n,
{
    if n < 10 {
        seq![digit_char(n)]
    } else {
        decimal(n / 10).push(digit_char(n % 10))
    }
}

pub open spec fn all_digits(s: Seq<char>) -> bool {
    forall|i: int| 0 <= i < s.len() ==> is_digit(#[trigger] s[i])
}

/// The number that a run of digits denotes.
pub open spec fn digits_value(s: Seq<char>) -> nat
    decreases s.len(),
{
    if s.len() == 0 {
        0
    } else {
        digits_value(s.drop_last()) * 10 + digit_value(s.last())
    }
}

/// A number in decimal: digits, and no leading zero but in `0` itself.
pub open spec fn is_decimal(s: Seq<char>) -> bool {
    &&& s.len() > 0
    &&& all_digits(s)
    &&& (s.len() > 1 ==> s[0] != '0')
}

proof fn lemma_digit_char(d: nat)
    requires
        d < 10,
    ensures
        is_digit(digit_char(d)),
        digit_value(digit_char(d)) == d,
        digit_char(d) != '.',
        digit_char(d) != '-',
        d > 0 ==> digit_char(d) != '0',
{
    let s = seq!['0', '1', '2', '3', '4', '5', '6', '7', '8', '9'];
    assert(s[0] == '0' && s[1] == '1' && s[2] == '2' && s[3] == '3' && s[4] == '4');
    assert(s[5] == '5' && s[6] == '6' && s[7] == '7' && s[8] == '8' && s[9] == '9');
}

/// The decimal text of `n` is a decimal that denotes `n`.
pub proof fn lemma_decimal(n: nat)
    ensures
        is_decimal(decimal(n)),
        digits_value(decimal(n)) == n,
        !decimal(n).contains('.'),
        !decimal(n).contains('-'),
    decreases n,
{
    if n < 10 {
        lemma_digit_char(n);
        assert(decimal(n).drop_last() =~= Seq::<char>::empty());
        assert(digits_value(Seq::<char>::empty()) == 0);
        assert(decimal(n).last() == digit_char(n));
    } else {
        lemma_decimal(n / 10);
        lemma_digit_char(n % 10);
        let d = decimal(n / 10);
        let s = decimal(n);
        assert(s.drop_last() =~= d);
        assert(s.last() == digit_char(n % 10));
        assert(digits_value(s) == digits_value(d) * 10 + digit_value(s.last()));
        assert(s[0] == d[0]);
        assert forall|i: int| 0 <= i < s.len() implies is_digit(#[trigger] s[i]) by {
            if i < d.len() {
                assert(s[i] == d[i]);
            }
        }
        assert(!s.contains('.')) by {
            if s.contains('.') {
                let i = choose|i: int| 0 <= i < s.len() && s[i] == '.';
                if i < d.len() {
                    assert(d[i] == '.');
                }
            }
        }
        assert(!s.contains('-')) by {
            if s.contains('-') {
                let i = choose|i: int| 0 <= i < s.len() && s[i] == '-';
                if i < d.len() {
                    assert(d[i] == '-');
                }
            }
        }
        if d.len() == 1 {
            assert(d[0] != '0') by {
                if n / 10 < 10 {
                    lemma_digit_char(n / 10);
                } else {
                    lemma_decimal(n / 100);
                    assert(d == decimal(n / 10 / 10).push(digit_char(n / 10 % 10)));
                }
            }
        }
    }
}

/// A decimal is the decimal text of the number it denotes.
pub proof fn lemma_decimal_canonical(s: Seq<char>)
    requires
        is_decimal(s),
    ensures
        decimal(digits_value(s)) == s,
    decreases s.len(),
{
    let d = s.drop_last();
    let last = s.last();
    assert(is_digit(s[s.len() - 1]));
    assert(digit_value(last) < 10);
    if s.len() == 1 {
        assert(d =~= Seq::<char>::empty());
        assert(digits_value(d) == 0);
        assert(digits_value(s) == digit_value(last));
        lemma_digit_of_value(last);
        assert(decimal(digits_value(s)) =~= s);
    } else {
        assert(is_decimal(d)) by {
            assert(d[0] == s[0]);
            assert forall|i: int| 0 <= i < d.len() implies is_digit(#[trigger] d[i]) by {
                assert(d[i] == s[i]);
            }
        }
        lemma_decimal_canonical(d);
        lemma_decimal_positive(d);
        let n = digits_value(s);
        assert(n == digits_value(d) * 10 + digit_value(last));
        assert(n / 10 == digits_value(d) && n % 10 == digit_value(last)) by (nonlinear_arith)
            requires
                n == digits_value(d) * 10 + digit_value(last),
                digit_value(last) < 10,
        ;
        assert(n >= 10) by (nonlinear_arith)
            requires
                n == digits_value(d) * 10 + digit_value(last),
                digits_value(d) >= 1,
        ;
        lemma_digit_of_value(last);
        assert(decimal(n) =~= s);
    }
}

proof fn lemma_digit_of_value(c: char)
    requires
        is_digit(c),
    ensures
        digit_value(c) < 10,
        digit_char(digit_value(c)) == c,
{
    let s = seq!['0', '1', '2', '3', '4', '5', '6', '7', '8', '9'];
    assert(s[0] == '0' && s[1] == '1' && s[2] == '2' && s[3] == '3' && s[4] == '4');
    assert(s[5] == '5' && s[6] == '6' && s[7] == '7' && s[8] == '8' && s[9] == '9');
    assert(c == '0' || c == '1' || c == '2' || c == '3' || c == '4' || c == '5' || c == '6' || c
        == '7' || c == '8' || c == '9') by {
        assert('0' as u32 == 48 && '9' as u32 == 57);
        assert(48 <= c as u32 <= 57);
        assert(c as u32 == 48 ==> c == '0');
    }
}

/// A decimal of more than one digit denotes a number of at least one.
proof fn lemma_decimal_positive(s: Seq<char>)
    requires
        is_decimal(s),
        s.len() >= 1,
        s[0] != '0',
    ensures
        digits_value(s) >= 1,
    decreases s.len(),
{
    if s.len() == 1 {
        assert(s.drop_last() =~= Seq::<char>::empty());
        assert(is_digit(s[0]));
        assert(s.last() == s[0]);
        assert(digit_value(s[0]) >= 1) by {
            assert('0' as u32 == 48);
        }
    } else {
        let d = s.drop_last();
        assert(d[0] == s[0]);
        assert(is_decimal(d)) by {
            assert forall|i: int| 0 <= i < d.len() implies is_digit(#[trigger] d[i]) by {
                assert(d[i] == s[i]);
            }
        }
        lemma_decimal_positive(d);
    }
}

fn digit_text(d: u64) -> (r: &'static str)
    requires
        d < 10,
    ensures
        r@ == seq![digit_char(d as nat)],
{
    proof {
        lemma_digit_char(d as nat);
    }
    let r = if d == 0 {
        "0"
    } else if d == 1 {
        "1"
    } else if d == 2 {
        "2"
    } else if d == 3 {
        "3"
    } else if d == 4 {
        "4"
    } else if d == 5 {
        "5"
    } else if d == 6 {
        "6"
    } else if d == 7 {
        "7"
    } else if d == 8 {
        "8"
    } else {
        "9"
    };
    proof {
        reveal_strlit("0");
        reveal_strlit("1");
        reveal_strlit("2");
        reveal_strlit("3");
        reveal_strlit("4");
        reveal_strlit("5");
        reveal_strlit("6");
        reveal_strlit("7");
        reveal_strlit("8");
        reveal_strlit("9");
        let s = seq!['0', '1', '2', '3', '4', '5', '6', '7', '8', '9'];
        assert(r@ =~= seq![s[d as int]]);
    }
    r
}

/// The decimal text of `n`.
pub fn decimal_text(n: u64) -> (r: String)
    ensures
        r@ == decimal(n as nat),
{
    let mut out = String::from_str(digit_text(n % 10));
    let mut m: u64 = n / 10;
    proof {
        if n < 10 {
            assert(out@ =~= decimal(n as nat));
        } else {
            assert(decimal(n as nat) == decimal(m as nat).push(digit_char((n % 10) as nat)));
            assert(decimal(n as nat) =~= decimal(m as nat) + out@);
        }
    }
    while m > 0
        invariant
            m == 0 ==> out@ == decimal(n as nat),
            m > 0 ==> decimal(n as nat) == decimal(m as nat) + out@,
        decreases m,
    {
        let mut head = String::from_str(digit_text(m % 10));
        head.append(out.as_str());
        proof {
            if m >= 10 {
                assert(decimal(m as nat) == decimal((m / 10) as nat).push(digit_char((m % 10) as nat)));
                assert(decimal(m as nat) + out@ =~= decimal((m / 10) as nat) + head@);
            } else {
                assert(decimal(m as nat) =~= head@.subrange(0, 1));
                assert(decimal(m as nat) + out@ =~= head@);
            }
        }
        out = head;
        m = m / 10;
    }
    out
}

/// Position of the first `c` in `s`, or -1.
#[verifier::opaque]
pub open spec fn first_index_of(s: Seq<char>, c: char) -> int {
    if s.contains(c) {
        choose|i: int| 0 <= i < s.len() && s[i] == c && forall|j: int| 0 <= j < i ==> s[j] != c
    } else {
        -1
    }
}

pub proof fn lemma_first_index_of(s: Seq<char>, c: char, i: int)
    requires
        0 <= i < s.len(),
        s[i] == c,
        forall|j: int| 0 <= j < i ==> s[j] != c,
    ensures
        first_index_of(s, c) == i,
{
    reveal(first_index_of);
    assert(s.contains(c));
    let k = first_index_of(s, c);
    assert(exists|i: int| 0 <= i < s.len() && s[i] == c && forall|j: int| 0 <= j < i ==> s[j] != c);
    if k < i {
        assert(s[k] != c);
    } else if i < k {
        assert(s[i] != c);
    }
}

pub proof fn lemma_first_index_of_props(s: Seq<char>, c: char)
    ensures
        first_index_of(s, c) >= 0 ==> 0 <= first_index_of(s, c) < s.len() && s[first_index_of(s, c)]
            == c && forall|j: int| 0 <= j < first_index_of(s, c) ==> s[j] != c,
        first_index_of(s, c) < 0 ==> first_index_of(s, c) == -1 && !s.contains(c),
{
    reveal(first_index_of);
    if s.contains(c) {
        let w = choose|i: int| 0 <= i < s.len() && s[i] == c;
        lemma_first_exists_char(s, c, w);
    }
}

proof fn lemma_first_exists_char(s: Seq<char>, c: char, w: int)
    requires
        0 <= w < s.len(),
        s[w] == c,
    ensures
        exists|i: int| 0 <= i < s.len() && s[i] == c && forall|j: int| 0 <= j < i ==> s[j] != c,
    decreases w,
{
    if forall|j: int| 0 <= j < w ==> s[j] != c {
    } else {
        let j = choose|j: int| 0 <= j < w && s[j] == c;
        lemma_first_exists_char(s, c, j);
    }
}

/// Position of the first `c` in `s` at or after `from`.
pub fn find_char(s: &str, c: char, from: usize) -> (r: Option<usize>)
    requires
        from <= s@.len(),
    ensures
        match r {
            Some(i) => from <= i < s@.len() && s@[i as int] == c && forall|j: int|
                from <= j < i ==> s@[j] != c,
            None => forall|j: int| from <= j < s@.len() ==> s@[j] != c,
        },
{
    let n = s.unicode_len();
    let mut i = from;
    while i < n
        invariant
            n == s@.len(),
            from <= i <= n,
            forall|j: int| from <= j < i ==> s@[j] != c,
        decreases n - i,
    {
        if s.get_char(i) == c {
            return Some(i);
        }
        i = i + 1;
    }
    None
}

/// The number that a decimal between `from` and `to` denotes, where it is one
/// that fits in a `u32`.
pub fn parse_decimal(s: &str, from: usize, to: usize) -> (r: Option<u32>)
    requires
        from <= to <= s@.len(),
    ensures
        match r {
            Some(v) => is_decimal(s@.subrange(from as int, to as int)) && digits_value(
                s@.subrange(from as int, to as int),
            ) == v as nat,
            None => !is_decimal(s@.subrange(from as int, to as int)) || digits_value(
                s@.subrange(from as int, to as int),
            ) > u32::MAX as nat,
        },
{
    if to - from > 1 && s.get_char(from) == '0' {
        return None;
    }
    parse_digits(s, from, to)
}

/// One or more digits.
pub open spec fn is_digits(s: Seq<char>) -> bool {
    s.len() > 0 && all_digits(s)
}

/// The digits of a number as `u32` parsing reads it: after an optional `+`.
pub open spec fn digits_part(s: Seq<char>) -> Seq<char> {
    if s.len() > 0 && s[0] == '+' {
        s.subrange(1, s.len() as int)
    } else {
        s
    }
}

/// A number as `u32` parsing reads it: an optional `+`, then one or more
/// digits, leading zeros allowed.
pub open spec fn is_number_text(s: Seq<char>) -> bool {
    is_digits(digits_part(s))
}

/// The number between `from` and `to`, read as `u32` parsing reads it,
/// where it fits in a `u32`.
pub fn parse_number(s: &str, from: usize, to: usize) -> (r: Option<u32>)
    requires
        from <= to <= s@.len(),
    ensures
        match r {
            Some(v) => is_number_text(s@.subrange(from as int, to as int)) && digits_value(
                digits_part(s@.subrange(from as int, to as int)),
            ) == v as nat,
            None => !is_number_text(s@.subrange(from as int, to as int)) || digits_value(
                digits_part(s@.subrange(from as int, to as int)),
            ) > u32::MAX as nat,
        },
{
    let ghost t = s@.subrange(from as int, to as int);
    if from < to && s.get_char(from) == '+' {
        proof {
            assert(t[0] == '+');
            assert(digits_part(t) =~= s@.subrange(from + 1, to as int));
        }
        parse_digits(s, from + 1, to)
    } else {
        proof {
            if from < to {
                assert(t[0] != '+');
            }
        }
        parse_digits(s, from, to)
    }
}

/// The number that the digits between `from` and `to` denote, where they
/// are one or more digits and the number fits in a `u32`.
pub fn parse_digits(s: &str, from: usize, to: usize) -> (r: Option<u32>)
    requires
        from <= to <= s@.len(),
    ensures
        match r {
            Some(v) => is_digits(s@.subrange(from as int, to as int)) && digits_value(
                s@.subrange(from as int, to as int),
            ) == v as nat,
            None => !is_digits(s@.subrange(from as int, to as int)) || digits_value(
                s@.subrange(from as int, to as int),
            ) > u32::MAX as nat,
        },
{
    let ghost t = s@.subrange(from as int, to as int);
    if from == to {
        return None;
    }
    let mut v: u64 = 0;
    let mut i = from;
    while i < to
        invariant
            from <= i <= to <= s@.len(),
            t == s@.subrange(from as int, to as int),
            all_digits(s@.subrange(from as int, i as int)),
            v as nat == digits_value(s@.subrange(from as int, i as int)),
            v <= u32::MAX,
        decreases to - i,
    {
        let c = s.get_char(i);
        let ghost p = s@.subrange(from as int, i as int);
        let ghost q = s@.subrange(from as int, i + 1);
        proof {
            assert(q.drop_last() =~= p);
            assert(q.last() == c);
        }
        if !('0' <= c && c <= '9') {
            proof {
                assert(t[i - from] == c);
            }
            return None;
        }
        let d = (c as u32 - '0' as u32) as u64;
        let w = v * 10 + d;
        if w > u32::MAX as u64 {
            proof {
                assert(digits_value(q) == digits_value(p) * 10 + digit_value(c));
                assert(t.subrange(0, i - from + 1) =~= q);
                if is_digits(t) {
                    lemma_digits_value_grows(t, i - from + 1);
                }
            }
            return None;
        }
        v = w;
        proof {
            assert forall|j: int| 0 <= j < q.len() implies is_digit(#[trigger] q[j]) by {
                if j < p.len() {
                    assert(q[j] == p[j]);
                }
            }
        }
        i = i + 1;
    }
    proof {
        assert(s@.subrange(from as int, to as int) =~= t);
    }
    Some(v as u32)
}

/// The value of a run of digits is at least that of any prefix.
proof fn lemma_digits_value_grows(t: Seq<char>, k: int)
    requires
        0 <= k <= t.len(),
        all_digits(t),
    ensures
        digits_value(t) >= digits_value(t.subrange(0, k)),
    decreases t.len() - k,
{
    if k < t.len() {
        lemma_digits_value_grows(t, k + 1);
        let a = t.subrange(0, k + 1);
        assert(a.drop_last() =~= t.subrange(0, k));
        assert(digits_value(a) >= digits_value(t.subrange(0, k))) by (nonlinear_arith)
            requires
                digits_value(a) == digits_value(a.drop_last()) * 10 + digit_value(a.last()),
                a.drop_last() == t.subrange(0, k),
        ;
    } else {
        assert(t.subrange(0, k) =~= t);
    }
}

} // verus!
