use vstd::prelude::*;

verus! {

/// Whitespace as `char::is_ascii_whitespace` has it.
pub open spec fn is_ws(c: char) -> bool {
    c == ' ' || c == '\t' || c == '\n' || c == '\r' || c == '\x0C'
}

pub open spec fn is_digit(c: char) -> bool {
    '0' <= c <= '9'
}

pub open spec fn digit_value(c: char) -> int {
    c as int - '0' as int
}

pub open spec fn digit_char(d: int) -> char {
    ((d + '0' as int) as u8) as char
}

/// Scans `s` left to right: the tokens completed so far, and the token being read.
pub open spec fn scan(s: Seq<char>) -> (Seq<Seq<char>>, Seq<char>)
    decreases s.len(),
{
    if s.len() == 0 {
        (Seq::empty(), Seq::empty())
    } else {
        let (done, cur) = scan(s.drop_last());
        let c = s.last();
        if is_ws(c) {
            if cur.len() > 0 {
                (done.push(cur), Seq::empty())
            } else {
                (done, Seq::empty())
            }
        } else {
            (done, cur.push(c))
        }
    }
}

/// The maximal runs of non-whitespace characters of `s`, in order.
pub open spec fn tokens(s: Seq<char>) -> Seq<Seq<char>> {
    let (done, cur) = scan(s);
    if cur.len() > 0 {
        done.push(cur)
    } else {
        done
    }
}

/// A non-empty string of characters none of which is whitespace.
pub open spec fn is_word(w: Seq<char>) -> bool {
    w.len() > 0 && forall|i: int| 0 <= i < w.len() ==> !is_ws(#[trigger] w[i])
}

pub open spec fn all_digits(s: Seq<char>) -> bool {
    s.len() > 0 && forall|i: int| 0 <= i < s.len() ==> is_digit(#[trigger] s[i])
}

/// The number that a string of decimal digits spells.
pub open spec fn digits_value(s: Seq<char>) -> int
    decreases s.len(),
{
    if s.len() == 0 {
        0
    } else {
        digits_value(s.drop_last()) * 10 + digit_value(s.last())
    }
}

/// The integer a token spells as Rust's `FromStr` reads it: an optional sign (`-` only where
/// `signed`), then one or more decimal digits.
pub open spec fn integer_of(t: Seq<char>, signed: bool) -> Option<int> {
    if t.len() > 0 && t[0] == '-' && signed && all_digits(t.skip(1)) {
        Some(-digits_value(t.skip(1)))
    } else if t.len() > 0 && t[0] == '+' && all_digits(t.skip(1)) {
        Some(digits_value(t.skip(1)))
    } else if all_digits(t) {
        Some(digits_value(t))
    } else {
        None
    }
}

/// The value of `t` read as an integer in `[lo, hi]`, if it is one.
pub open spec fn bounded_integer_of(t: Seq<char>, lo: int, hi: int) -> Option<int> {
    match integer_of(t, lo < 0) {
        Some(v) => if lo <= v <= hi {
            Some(v)
        } else {
            None
        },
        None => None,
    }
}

/// Decimal digits of `n`, without leading zeros.
pub open spec fn nat_text(n: nat) -> Seq<char>
    decreases n,
{
    if n < 10 {
        seq![digit_char(n as int)]
    } else {
        nat_text(n / 10).push(digit_char(n as int % 10))
    }
}

/// Decimal text of `v`, with a `-` in front when it is negative.
pub open spec fn int_text(v: int) -> Seq<char> {
    if v < 0 {
        seq!['-'] + nat_text((-v) as nat)
    } else {
        nat_text(v as nat)
    }
}

/// Relies on `String::push`: appends one character.
#[verifier::external_body]
pub(crate) fn push_char(s: &mut String, c: char)
    ensures
        final(s)@ == old(s)@.push(c),
{
    s.push(c);
}

/// Appends the decimal digits of `n`.
pub fn push_nat(out: &mut String, n: u128)
    ensures
        final(out)@ == old(out)@ + nat_text(n as nat),
    decreases n,
{
    if n >= 10 {
        push_nat(out, n / 10);
    }
    let d = (n % 10) as u8;
    push_char(out, (d + 48u8) as char);
    proof {
        assert(digit_char((n % 10) as int) == (d + 48u8) as char);
    }
    assert(out@ =~= old(out)@ + nat_text(n as nat));
}

/// Appends the decimal text of `v`.
pub fn push_int(out: &mut String, v: i128)
    requires
        v > i128::MIN,
    ensures
        final(out)@ == old(out)@ + int_text(v as int),
{
    if v < 0 {
        push_char(out, '-');
        push_nat(out, (-v) as u128);
        assert(out@ =~= old(out)@ + int_text(v as int));
    } else {
        push_nat(out, v as u128);
    }
}

proof fn lemma_digit_char(d: int)
    requires
        0 <= d < 10,
    ensures
        is_digit(digit_char(d)),
        digit_value(digit_char(d)) == d,
{
    let b = (d + 48) as u8;
    assert(b as int == d + 48);
    assert((b as char) as int == b as int);
}

proof fn lemma_nat_text_digits(n: nat)
    ensures
        all_digits(nat_text(n)),
        digits_value(nat_text(n)) == n,
        nat_text(n)[0] != '-' && nat_text(n)[0] != '+',
    decreases n,
{
    lemma_digit_char(n as int % 10);
    if n < 10 {
        let t = nat_text(n);
        assert(t.drop_last() =~= Seq::<char>::empty());
        assert(t.last() == digit_char(n as int));
        assert(digits_value(t) == digits_value(t.drop_last()) * 10 + digit_value(t.last()));
    } else {
        lemma_nat_text_digits(n / 10);
        let t = nat_text(n);
        assert(t.drop_last() =~= nat_text(n / 10));
        assert(t.last() == digit_char(n as int % 10));
        assert(digits_value(t) == digits_value(t.drop_last()) * 10 + digit_value(t.last()));
        assert((n / 10) * 10 + n % 10 == n) by (nonlinear_arith);
        assert(forall|i: int| 0 <= i < t.len() ==> is_digit(#[trigger] t[i])) by {
            assert forall|i: int| 0 <= i < t.len() implies is_digit(#[trigger] t[i]) by {
                if i < t.len() - 1 {
                    assert(t[i] == nat_text(n / 10)[i]);
                }
            }
        }
    }
}

/// Reading back the decimal text of an integer gives the integer.
pub proof fn lemma_int_text_round_trip(v: int, lo: int, hi: int)
    requires
        lo <= v <= hi,
        lo < 0 || lo == 0,
    ensures
        bounded_integer_of(int_text(v), lo, hi) == Some(v),
        is_word(int_text(v)),
{
    if v < 0 {
        let n = (-v) as nat;
        lemma_nat_text_digits(n);
        let t = int_text(v);
        assert(t.skip(1) =~= nat_text(n));
        assert(forall|i: int| 0 <= i < t.len() ==> !is_ws(#[trigger] t[i])) by {
            assert forall|i: int| 0 <= i < t.len() implies !is_ws(#[trigger] t[i]) by {
                if i > 0 {
                    assert(t[i] == nat_text(n)[i - 1]);
                }
            }
        }
    } else {
        lemma_nat_text_digits(v as nat);
        let t = int_text(v);
        assert(forall|i: int| 0 <= i < t.len() ==> !is_ws(#[trigger] t[i])) by {
            assert forall|i: int| 0 <= i < t.len() implies !is_ws(#[trigger] t[i]) by {
                assert(is_digit(t[i]));
            }
        }
    }
}

/// Digits never lose value when more digits follow.
proof fn lemma_digits_prefix(s: Seq<char>, k: int)
    requires
        0 <= k <= s.len(),
        forall|i: int| 0 <= i < s.len() ==> is_digit(#[trigger] s[i]),
    ensures
        digits_value(s.subrange(0, k)) <= digits_value(s),
        0 <= digits_value(s),
    decreases s.len(),
{
    if s.len() > 0 {
        let d = s.drop_last();
        assert(is_digit(s.last()));
        if k == s.len() {
            assert(s.subrange(0, k) =~= s);
            lemma_digits_prefix(d, 0);
        } else {
            assert(d.subrange(0, k) =~= s.subrange(0, k));
            lemma_digits_prefix(d, k);
        }
    } else {
        assert(s.subrange(0, k) =~= s);
    }
}

/// Reads `t` as an integer in `[lo, hi]`, following Rust's `FromStr` for integers.
pub fn parse_bounded(t: &Vec<char>, lo: i128, hi: i128) -> (r: Option<i128>)
    requires
        -0x1_0000_0000_0000_0000 <= lo <= 0 <= hi <= 0x1_0000_0000_0000_0000,
    ensures
        match r {
            Some(v) => bounded_integer_of(t@, lo as int, hi as int) == Some(v as int),
            None => bounded_integer_of(t@, lo as int, hi as int) is None,
        },
{
    let n = t.len();
    if n == 0 {
        return None;
    }
    let mut start: usize = 0;
    let mut neg = false;
    if t[0] == '-' {
        if lo < 0 {
            neg = true;
            start = 1;
        } else {
            assert(!is_digit(t@[0]));
            return None;
        }
    } else if t[0] == '+' {
        start = 1;
    }
    let ghost body = t@.skip(start as int);
    if start == n {
        assert(!all_digits(body));
        assert(!is_digit(t@[0]));
        return None;
    }
    let limit: u128 = if neg { (-lo) as u128 } else { hi as u128 };
    let mut acc: u128 = 0;
    let mut i = start;
    while i < n
        invariant
            start <= i <= n,
            n == t.len(),
            start == 0 || start == 1,
            body == t@.skip(start as int),
            acc == digits_value(t@.subrange(start as int, i as int)),
            acc <= limit,
            limit <= 0x1_0000_0000_0000_0000,
            limit == if neg { -lo } else { hi as int },
            neg ==> lo < 0,
            start == 1 <==> (t@[0] == '-' && neg) || t@[0] == '+',
            neg <==> t@[0] == '-',
            forall|j: int| start <= j < i ==> is_digit(#[trigger] t@[j]),
        decreases n - i,
    {
        let c = t[i];
        if !(c >= '0' && c <= '9') {
            proof {
                assert(body[i - start] == c);
                assert(!is_digit(body[i - start]));
                assert(!all_digits(body));
                assert(!is_digit(t@[i as int]));
                if start == 1 {
                    assert(!is_digit(t@[0]));
                } else {
                    assert(!all_digits(t@));
                }
            }
            return None;
        }
        let d = (c as u32 - 48) as u128;
        assert(digit_value(c) == d);
        let ghost prefix = t@.subrange(start as int, i as int + 1);
        assert(prefix.drop_last() =~= t@.subrange(start as int, i as int));
        if d > limit || acc > (limit - d) / 10 {
            proof {
                assert(acc * 10 + d > limit) by (nonlinear_arith)
                    requires d > limit || acc > (limit - d) / 10, d >= 0, limit >= 0, acc >= 0;
                if all_digits(body) {
                    assert(body.subrange(0, i - start + 1) =~= prefix);
                    lemma_digits_prefix(body, i - start + 1);
                }
                if start == 0 {
                    assert(body =~= t@);
                }
                if start == 1 {
                    assert(!is_digit(t@[0]));
                }
            }
            return None;
        }
        assert(acc * 10 + d <= limit) by (nonlinear_arith)
            requires acc <= (limit - d) / 10, d <= 9, limit >= 0, acc >= 0;
        acc = acc * 10 + d;
        i = i + 1;
    }
    proof {
        assert(t@.subrange(start as int, n as int) =~= body);
        assert(all_digits(body));
        if start == 0 {
            assert(body =~= t@);
        }
    }
    if neg {
        Some(-(acc as i128))
    } else {
        Some(acc as i128)
    }
}

/// The views of a list of character vectors.
pub open spec fn char_views(v: Seq<Vec<char>>) -> Seq<Seq<char>> {
    v.map_values(|t: Vec<char>| t@)
}

/// Splits `s` at ASCII whitespace, as `str::split_ascii_whitespace` does.
pub fn split_tokens(s: &str) -> (r: Vec<Vec<char>>)
    ensures
        char_views(r@) == tokens(s@),
{
    let mut done: Vec<Vec<char>> = Vec::new();
    let mut cur: Vec<char> = Vec::new();
    let ghost mut seen: Seq<char> = Seq::empty();
    for c in it: s.chars()
        invariant
            (char_views(done@), cur@) == scan(seen),
            seen == it.seq().take(it.index() as int),
            it.seq() == s@,
    {
        let ghost before = seen;
        proof {
            seen = seen.push(c);
        }
        let ghost after = seen;
        assert(after.drop_last() =~= before);
        if c == ' ' || c == '\t' || c == '\n' || c == '\r' || c == '\x0C' {
            if cur.len() > 0 {
                done.push(cur);
                cur = Vec::new();
                assert(char_views(done@) =~= scan(before).0.push(scan(before).1));
            }
        } else {
            cur.push(c);
        }
        assert(cur@ =~= scan(after).1);
        assert(char_views(done@) =~= scan(after).0);
    }
    assert(seen =~= s@);
    if cur.len() > 0 {
        done.push(cur);
        assert(char_views(done@) =~= tokens(s@));
    }
    done
}

/// Whether `a` and `b` hold the same characters.
pub fn same_text(a: &str, b: &str) -> (r: bool)
    ensures
        r == (a@ == b@),
{
    let n = a.unicode_len();
    if n != b.unicode_len() {
        return false;
    }
    let mut i: usize = 0;
    while i < n
        invariant
            i <= n,
            n == a@.len() == b@.len(),
            a@.take(i as int) == b@.take(i as int),
        decreases n - i,
    {
        if a.get_char(i) != b.get_char(i) {
            return false;
        }
        assert(a@.take(i + 1) =~= a@.take(i as int).push(a@[i as int]));
        assert(b@.take(i + 1) =~= b@.take(i as int).push(b@[i as int]));
        i = i + 1;
    }
    assert(a@.take(n as int) =~= a@);
    assert(b@.take(n as int) =~= b@);
    true
}

/// The characters of `s`.
pub fn chars_of(s: &str) -> (r: Vec<char>)
    ensures
        r@ == s@,
{
    let mut out: Vec<char> = Vec::new();
    for c in it: s.chars()
        invariant
            out@ == it.seq().take(it.index() as int),
            it.seq() == s@,
    {
        let ghost before = out@;
        out.push(c);
        assert(out@ =~= it.seq().take(it.index() + 1)) by {
            assert(before.push(c) =~= it.seq().take(it.index() as int).push(c));
        }
    }
    out
}

} // verus!
