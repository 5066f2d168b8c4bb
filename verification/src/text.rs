use vstd::prelude::*;
use vstd::std_specs::iter::IteratorSpec;
use vstd::string::*;

verus! {

/// Appends one character to a string through `String::push` of the standard library,
/// which puts the character at the end and leaves what was there in place.
#[verifier::external_body]
pub(crate) fn push_char(s: &mut String, c: char)
    ensures
        final(s)@ == old(s)@.push(c),
{
    s.push(c)
}

/// The characters of a string, in order.
pub fn chars_of(s: &str) -> (v: Vec<char>)
    ensures
        v@ == s@,
{
    broadcast use group_string_axioms;

    let mut v: Vec<char> = Vec::new();
    let mut it = s.chars();
    loop
        invariant
            v@ + it.remaining() == s@,
            it.decrease() is Some,
        ensures
            v@ == s@,
        decreases it.decrease()->0,
    {
        match it.next() {
            Some(c) => {
                v.push(c);
            },
            None => {
                break ;
            },
        }
    }
    v
}

/// The string made of the given characters, in order.
pub fn string_of(v: &Vec<char>) -> (s: String)
    ensures
        s@ == v@,
{
    let s = string_of_range(v, 0, v.len());
    assert(v@.subrange(0, v.len() as int) =~= v@);
    s
}

/// Whether `c` is one of `0`-`9`.
pub open spec fn is_digit(c: char) -> bool {
    '0' <= c <= '9'
}

/// Whether `s` is a decimal numeral: one digit or more and nothing else.
pub open spec fn is_decimal(s: Seq<char>) -> bool {
    s.len() > 0 && forall|i: int| 0 <= i < s.len() ==> is_digit(#[trigger] s[i])
}

/// The number that a sequence of decimal digits stands for.
pub open spec fn decimal_value(s: Seq<char>) -> nat
    decreases s.len(),
{
    if s.len() == 0 {
        0
    } else {
        decimal_value(s.drop_last()) * 10 + (s.last() as int - 48) as nat
    }
}

/// The decimal digit for a number below ten.
pub open spec fn digit_char(d: nat) -> char {
    ((48 + d) as u8) as char
}

/// The decimal numeral of a number, without leading zeros.
pub open spec fn decimal_text(n: nat) -> Seq<char>
    decreases n,
{
    if n < 10 {
        seq![digit_char(n)]
    } else {
        decimal_text(n / 10).push(digit_char(n % 10))
    }
}

/// The numeral of a number is a decimal numeral and stands for that number.
pub proof fn lemma_decimal_round_trip(n: nat)
    ensures
        is_decimal(decimal_text(n)),
        decimal_value(decimal_text(n)) == n,
    decreases n,
{
    if n < 10 {
        let t = decimal_text(n);
        assert(t.drop_last() =~= Seq::<char>::empty());
        assert(decimal_value(t.drop_last()) == 0);
    } else {
        lemma_decimal_round_trip(n / 10);
        let t = decimal_text(n);
        assert(t.drop_last() =~= decimal_text(n / 10));
    }
}

/// A decimal numeral without leading zeros is the numeral of its value.
pub proof fn lemma_canonical_decimal(s: Seq<char>)
    requires
        is_decimal(s),
        s.len() == 1 || s[0] != '0',
    ensures
        decimal_text(decimal_value(s)) == s,
    decreases s.len(),
{
    let p = s.drop_last();
    let d = (s.last() as int - 48) as nat;
    assert(is_digit(s.last()));
    if s.len() == 1 {
        assert(p =~= Seq::<char>::empty());
        assert(decimal_value(p) == 0);
        assert(decimal_text(d) =~= s);
    } else {
        assert(is_decimal(p)) by {
            assert forall|i: int| 0 <= i < p.len() implies is_digit(#[trigger] p[i]) by {
                assert(p[i] == s[i]);
            }
        }
        assert(p[0] == s[0]);
        lemma_canonical_decimal(p);
        let v = decimal_value(p);
        if v == 0 {
            assert(decimal_text(0)[0] == '0');
        }
        assert(decimal_value(s) == v * 10 + d);
        assert((v * 10 + d) / 10 == v);
        assert((v * 10 + d) % 10 == d);
        assert(decimal_text(v * 10 + d) =~= s);
    }
}

/// The numeral of a number has no leading zeros.
pub proof fn lemma_decimal_text_canonical(n: nat)
    ensures
        decimal_text(n).len() >= 1,
        decimal_text(n).len() == 1 || decimal_text(n)[0] != '0',
    decreases n,
{
    if n >= 10 {
        let m = n / 10;
        lemma_decimal_text_canonical(m);
        let head = decimal_text(m);
        assert(decimal_text(n) == head.push(digit_char(n % 10)));
        assert(decimal_text(n)[0] == head[0]);
        if m < 10 {
            assert(head[0] == digit_char(m));
            assert(m >= 1);
        } else {
            lemma_decimal_text_canonical(m / 10);
            assert(head == decimal_text(m / 10).push(digit_char(m % 10)));
        }
    }
}

/// A numeral stands for at least as much as any of its prefixes.
proof fn lemma_decimal_value_prefix(s: Seq<char>, k: int)
    requires
        0 <= k <= s.len(),
        forall|i: int| 0 <= i < s.len() ==> is_digit(#[trigger] s[i]),
    ensures
        decimal_value(s.take(k)) <= decimal_value(s),
    decreases s.len() - k,
{
    if k == s.len() {
        assert(s.take(k) =~= s);
    } else {
        lemma_decimal_value_prefix(s, k + 1);
        assert(s.take(k + 1).drop_last() =~= s.take(k));
        assert(is_digit(s[k]));
    }
}

/// Reads a decimal numeral that fits 64 bits; `None` for any other text.
pub fn parse_decimal(s: &str) -> (r: Option<u64>)
    ensures
        r matches Some(n) ==> is_decimal(s@) && n == decimal_value(s@),
        r is None <==> !is_decimal(s@) || decimal_value(s@) > u64::MAX,
{
    let v = chars_of(s);
    if v.len() == 0 {
        return None;
    }
    let mut n: u64 = 0;
    let mut i: usize = 0;
    while i < v.len()
        invariant
            i <= v.len(),
            v@ == s@,
            forall|k: int| 0 <= k < i ==> is_digit(#[trigger] v@[k]),
            n == decimal_value(v@.take(i as int)),
        decreases v.len() - i,
    {
        let c = v[i];
        if !('0' <= c && c <= '9') {
            return None;
        }
        let d: u64 = (c as u32 - '0' as u32) as u64;
        proof {
            assert(v@.take(i + 1).drop_last() =~= v@.take(i as int));
            assert(decimal_value(v@.take(i + 1)) == n * 10 + d);
        }
        let next = match n.checked_mul(10) {
            Some(m) => m.checked_add(d),
            None => None,
        };
        match next {
            Some(m) => {
                n = m;
            },
            None => {
                proof {
                    if is_decimal(s@) {
                        lemma_decimal_value_prefix(v@, i + 1);
                    }
                }
                return None;
            },
        }
        i += 1;
    }
    assert(v@.take(i as int) =~= v@);
    Some(n)
}

/// Writes a number as a decimal numeral without leading zeros.
pub fn decimal_string(n: u64) -> (s: String)
    ensures
        s@ == decimal_text(n as nat),
{
    let mut digits: Vec<char> = Vec::new();
    let mut rest: u64 = n;
    // The digits from the least significant one up, until one digit is left.
    while rest >= 10
        invariant
            forall|head: Seq<char>| #![trigger head + digits@.reverse()]
                decimal_text(rest as nat) == head ==> decimal_text(n as nat) == head
                    + digits@.reverse(),
        decreases rest,
    {
        let d: u8 = (rest % 10) as u8;
        let ghost before = digits@;
        digits.push((48 + d) as char);
        proof {
            let tail = decimal_text((rest / 10) as nat);
            assert(decimal_text(rest as nat) == tail.push(digit_char((rest % 10) as nat)));
            assert(digits@.reverse() =~= seq![digit_char((rest % 10) as nat)] + before.reverse());
            assert forall|head: Seq<char>| #![trigger head + digits@.reverse()]
                decimal_text((rest / 10) as nat) == head implies decimal_text(n as nat) == head
                + digits@.reverse() by {
                let mid = head.push(digit_char((rest % 10) as nat));
                assert(mid + before.reverse() =~= head + digits@.reverse());
                assert(decimal_text(n as nat) == mid + before.reverse());
            }
        }
        rest = rest / 10;
    }
    let ghost low = digits@;
    digits.push((48 + (rest as u8)) as char);
    proof {
        let head = decimal_text(rest as nat);
        assert(head =~= seq![digit_char(rest as nat)]);
        assert(decimal_text(n as nat) == head + low.reverse());
        assert(digits@.reverse() =~= head + low.reverse());
    }
    let mut s = String::new();
    let mut i: usize = digits.len();
    while i > 0
        invariant
            i <= digits.len(),
            s@ == digits@.reverse().take(digits.len() - i),
        decreases i,
    {
        i -= 1;
        push_char(&mut s, digits[i]);
        assert(digits@.reverse().take(digits.len() - i) =~= digits@.reverse().take(
            digits.len() - i - 1,
        ).push(digits@[i as int]));
    }
    assert(digits@.reverse().take(digits.len() as int) =~= digits@.reverse());
    s
}

/// Whether `s` begins with `p`.
pub open spec fn starts_with(s: Seq<char>, p: Seq<char>) -> bool {
    p.len() <= s.len() && s.take(p.len() as int) == p
}

/// Whether the characters begin with the given text.
pub fn has_prefix(v: &Vec<char>, p: &str) -> (r: bool)
    ensures
        r == starts_with(v@, p@),
{
    let q = chars_of(p);
    if q.len() > v.len() {
        return false;
    }
    let mut i: usize = 0;
    while i < q.len()
        invariant
            i <= q.len() <= v.len(),
            q@ == p@,
            v@.take(i as int) == q@.take(i as int),
        decreases q.len() - i,
    {
        if v[i] != q[i] {
            assert(v@.take(q.len() as int)[i as int] == v@[i as int]);
            return false;
        }
        assert(v@.take(i + 1) =~= v@.take(i as int).push(v@[i as int]));
        assert(q@.take(i + 1) =~= q@.take(i as int).push(q@[i as int]));
        i += 1;
    }
    assert(q@.take(i as int) =~= q@);
    true
}

/// The string made of the characters from position `from` up to, not including, `to`.
pub fn string_of_range(v: &Vec<char>, from: usize, to: usize) -> (s: String)
    requires
        from <= to <= v.len(),
    ensures
        s@ == v@.subrange(from as int, to as int),
{
    let mut s = String::new();
    let mut i: usize = from;
    while i < to
        invariant
            from <= i <= to <= v.len(),
            s@ == v@.subrange(from as int, i as int),
        decreases to - i,
    {
        push_char(&mut s, v[i]);
        assert(v@.subrange(from as int, i + 1) =~= v@.subrange(from as int, i as int).push(
            v@[i as int],
        ));
        i += 1;
    }
    s
}

/// Puts the bytes of `src` behind those of `dst`.
pub fn append_bytes(dst: &mut Vec<u8>, src: &[u8])
    ensures
        final(dst)@ == old(dst)@ + src@,
{
    let mut i: usize = 0;
    while i < src.len()
        invariant
            i <= src.len(),
            dst@ == old(dst)@ + src@.take(i as int),
        decreases src.len() - i,
    {
        dst.push(src[i]);
        assert(src@.take(i + 1) =~= src@.take(i as int).push(src@[i as int]));
        i += 1;
    }
    assert(src@.take(i as int) =~= src@);
}

/// Whether two texts hold the same characters.
pub fn same_text(a: &str, b: &str) -> (r: bool)
    ensures
        r == (a@ == b@),
{
    let v = chars_of(a);
    let w = chars_of(b);
    if v.len() != w.len() {
        return false;
    }
    let r = has_prefix(&v, b);
    assert(v@.take(v@.len() as int) =~= v@);
    r
}

/// `s` with every occurrence of `from` replaced by `to`, reading from the left and
/// going on behind each occurrence. An empty `from` occurs nowhere.
pub open spec fn replaced(s: Seq<char>, from: Seq<char>, to: Seq<char>) -> Seq<char>
    decreases s.len(),
{
    if from.len() == 0 || s.len() == 0 {
        s
    } else if starts_with(s, from) {
        to + replaced(s.skip(from.len() as int), from, to)
    } else {
        seq![s[0]] + replaced(s.skip(1), from, to)
    }
}

/// Whether `f` stands in `v` at position `i`.
fn stands_at(v: &Vec<char>, i: usize, f: &Vec<char>) -> (r: bool)
    requires
        i <= v.len(),
    ensures
        r == starts_with(v@.skip(i as int), f@),
{
    if f.len() > v.len() - i {
        return false;
    }
    let ghost rest = v@.skip(i as int);
    let mut k: usize = 0;
    while k < f.len()
        invariant
            k <= f.len() <= v.len() - i,
            rest == v@.skip(i as int),
            forall|m: int| 0 <= m < k ==> rest[m] == f@[m],
        decreases f.len() - k,
    {
        if v[i + k] != f[k] {
            assert(rest.take(f.len() as int)[k as int] == rest[k as int]);
            return false;
        }
        k += 1;
    }
    assert(rest.take(f.len() as int) =~= f@);
    true
}

/// Replaces every occurrence of `from` in `text` by `to`.
pub fn replace_all(text: &str, from: &str, to: &str) -> (out: String)
    ensures
        out@ == replaced(text@, from@, to@),
{
    let v = chars_of(text);
    let f = chars_of(from);
    if f.len() == 0 {
        return string_of(&v);
    }
    let n = v.len();
    let mut out = String::new();
    let mut i: usize = 0;
    assert(v@.skip(0) =~= v@);
    while i < n
        invariant
            n == v.len(),
            i <= n,
            f@ == from@,
            f.len() > 0,
            replaced(v@, f@, to@) == out@ + replaced(v@.skip(i as int), f@, to@),
        decreases n - i,
    {
        let ghost rest = v@.skip(i as int);
        let ghost before = out@;
        if stands_at(&v, i, &f) {
            out.append(to);
            proof {
                assert(rest.skip(f.len() as int) =~= v@.skip(i + f.len()));
                assert(before + (to@ + replaced(rest.skip(f.len() as int), f@, to@)) =~= (before
                    + to@) + replaced(v@.skip(i + f.len()), f@, to@));
            }
            i += f.len();
        } else {
            push_char(&mut out, v[i]);
            proof {
                assert(rest.skip(1) =~= v@.skip(i + 1));
                assert(before + (seq![rest[0]] + replaced(rest.skip(1), f@, to@)) =~= before.push(
                    v@[i as int],
                ) + replaced(v@.skip(i + 1), f@, to@));
            }
            i += 1;
        }
    }
    assert(v@.skip(n as int) =~= Seq::<char>::empty());
    out
}

/// Whether `needle` occurs somewhere in `hay`.
pub open spec fn occurs_in(needle: Seq<char>, hay: Seq<char>) -> bool {
    exists|i: int| 0 <= i <= hay.len() && starts_with(#[trigger] hay.skip(i), needle)
}

/// Whether `needle` occurs somewhere in `hay`.
pub fn contains_text(hay: &str, needle: &str) -> (r: bool)
    ensures
        r == occurs_in(needle@, hay@),
{
    let v = chars_of(hay);
    let f = chars_of(needle);
    let mut i: usize = 0;
    loop
        invariant
            i <= v.len(),
            v@ == hay@,
            f@ == needle@,
            forall|k: int| 0 <= k < i ==> !starts_with(#[trigger] v@.skip(k), f@),
        decreases v.len() - i,
    {
        if stands_at(&v, i, &f) {
            return true;
        }
        if i == v.len() {
            return false;
        }
        i += 1;
    }
}

} // verus!
