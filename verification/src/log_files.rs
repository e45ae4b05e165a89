//! Naming of log files: log `n` is the file `n.log` in the store's
//! directory.

use vstd::prelude::*;
use vstd::utf8::encode_utf8;
use crate::kv::strictly_increasing;
use crate::format::{decimal, digit_char};

verus! {

/// The byte `b` is an ASCII digit.
pub open spec fn is_digit(b: u8) -> bool {
    48 <= b <= 57
}

/// The number that the ASCII digits `d` spell in decimal.
pub open spec fn digits_value(d: Seq<u8>) -> nat
    decreases d.len(),
{
    if d.len() == 0 {
        0
    } else {
        digits_value(d.drop_last()) * 10 + (d.last() - 48) as nat
    }
}

/// `b` without a leading `+`.
pub open spec fn unsigned_part(b: Seq<u8>) -> Seq<u8> {
    if b.len() > 0 && b[0] == 43 {
        b.drop_first()
    } else {
        b
    }
}

/// Every byte of `d` is an ASCII digit.
pub open spec fn all_digits(d: Seq<u8>) -> bool {
    forall|i: int| 0 <= i < d.len() ==> is_digit(#[trigger] d[i])
}

/// What `u64::from_str` gives for `b`: an optional `+`, then one or more
/// ASCII digits whose value fits in `u64`.
pub open spec fn parse_u64(b: Seq<u8>) -> Option<u64> {
    let d = unsigned_part(b);
    if d.len() > 0 && all_digits(d) && digits_value(d) <= u64::MAX {
        Some(digits_value(d) as u64)
    } else {
        None
    }
}

/// The index of the last `.` in `b`, or -1.
pub open spec fn last_dot(b: Seq<u8>) -> int
    decreases b.len(),
{
    if b.len() == 0 {
        -1
    } else if b.last() == 46 {
        b.len() - 1
    } else {
        last_dot(b.drop_last())
    }
}

/// The number of the log that a directory entry named `name` is: its
/// extension (after the last `.`, which must not start the name) is `log`,
/// and its stem (before that `.`) is a number.
pub open spec fn log_id_of_name(name: Seq<u8>) -> Option<u64> {
    let i = last_dot(name);
    if i > 0 && name.subrange(i + 1, name.len() as int) == seq![108u8, 111u8, 103u8] {
        parse_u64(name.subrange(0, i))
    } else {
        None
    }
}

proof fn lemma_last_dot(b: Seq<u8>)
    ensures
        -1 <= last_dot(b) < b.len(),
        last_dot(b) >= 0 ==> b[last_dot(b)] == 46,
        forall|j: int| last_dot(b) < j < b.len() ==> b[j] != 46,
    decreases b.len(),
{
    if b.len() > 0 && b.last() != 46 {
        lemma_last_dot(b.drop_last());
        assert forall|j: int| last_dot(b) < j < b.len() implies b[j] != 46 by {
            if j < b.len() - 1 {
                assert(b.drop_last()[j] == b[j]);
            }
        }
    }
}

proof fn lemma_digits_value_grows(d: Seq<u8>, i: int)
    requires
        0 <= i <= d.len(),
        forall|t: int| 0 <= t < d.len() ==> is_digit(#[trigger] d[t]),
    ensures
        digits_value(d.subrange(0, i)) <= digits_value(d),
    decreases d.len() - i,
{
    if i < d.len() {
        lemma_digits_value_grows(d, i + 1);
        assert(d.subrange(0, i + 1).drop_last() =~= d.subrange(0, i));
    } else {
        assert(d.subrange(0, i) =~= d);
    }
}

/// The bytes of the ASCII characters `s`.
spec fn ascii_bytes(s: Seq<char>) -> Seq<u8> {
    s.map_values(|c: char| c as u8)
}

/// `k` zero digits.
pub open spec fn zeros(k: nat) -> Seq<char> {
    Seq::new(k, |i: int| '0')
}

/// The file name extension of logs, with its dot.
pub open spec fn log_suffix() -> Seq<char> {
    seq!['.', 'l', 'o', 'g']
}

/// The decimal digits of `m` are ASCII digits that spell `m`.
proof fn lemma_decimal_digits(m: nat)
    ensures
        decimal(m).len() >= 1,
        forall|i: int| 0 <= i < decimal(m).len() ==> '0' <= #[trigger] decimal(m)[i] <= '9',
        all_digits(ascii_bytes(decimal(m))),
        digits_value(ascii_bytes(decimal(m))) == m,
    decreases m,
{
    if m < 10 {
        assert(decimal(m) == seq![digit_char(m)]);
        assert(ascii_bytes(decimal(m)).drop_last() =~= Seq::<u8>::empty());
        assert(digit_char(m) as u8 == 48 + m);
        assert(ascii_bytes(decimal(m)).last() == digit_char(m) as u8);
        assert(digits_value(ascii_bytes(decimal(m))) == digits_value(Seq::<u8>::empty()) * 10 + m);
    } else {
        lemma_decimal_digits(m / 10);
        let prev = decimal(m / 10);
        assert(decimal(m) == prev.push(digit_char(m % 10)));
        assert forall|i: int| 0 <= i < decimal(m).len() implies '0' <= #[trigger] decimal(m)[i] <= '9' by {
            if i < prev.len() {
                assert(decimal(m)[i] == prev[i]);
            }
        }
        assert(ascii_bytes(decimal(m)).drop_last() =~= ascii_bytes(prev));
        let last = digit_char(m % 10);
        assert(ascii_bytes(decimal(m)).last() == last as u8);
        assert(last as u8 == 48 + m % 10);
        assert(m == (m / 10) * 10 + m % 10);
        assert(digits_value(ascii_bytes(decimal(m))) == digits_value(ascii_bytes(prev)) * 10 + m % 10);
        assert forall|i: int| 0 <= i < ascii_bytes(decimal(m)).len() implies is_digit(
            #[trigger] ascii_bytes(decimal(m))[i],
        ) by {
            if i < prev.len() {
                assert(ascii_bytes(decimal(m))[i] == ascii_bytes(prev)[i]);
            }
        }
    }
}

/// Zero digits in front do not change the value of digits.
proof fn lemma_leading_zeros(k: nat, d: Seq<u8>)
    ensures
        digits_value(ascii_bytes(zeros(k)) + d) == digits_value(d),
    decreases d.len() + k,
{
    if d.len() == 0 {
        assert(ascii_bytes(zeros(k)) + d =~= ascii_bytes(zeros(k)));
        if k > 0 {
            assert(ascii_bytes(zeros(k)).drop_last() =~= ascii_bytes(zeros((k - 1) as nat)));
            lemma_leading_zeros((k - 1) as nat, d);
            assert(ascii_bytes(zeros((k - 1) as nat)) + d =~= ascii_bytes(zeros((k - 1) as nat)));
        }
    } else {
        assert((ascii_bytes(zeros(k)) + d).drop_last() =~= ascii_bytes(zeros(k)) + d.drop_last());
        lemma_leading_zeros(k, d.drop_last());
    }
}

/// The last dot of a name is the dot that only non-dots follow.
proof fn lemma_last_dot_at(b: Seq<u8>, k: int)
    requires
        0 <= k < b.len(),
        b[k] == 46,
        forall|j: int| k < j < b.len() ==> b[j] != 46,
    ensures
        last_dot(b) == k,
{
    lemma_last_dot(b);
}

/// The name `[+]0…0<decimal n>.log`: an optional `+`, `k` zeros, the
/// decimal digits of `n`, and the extension.
pub open spec fn log_name(plus: bool, k: nat, n: nat) -> Seq<char> {
    (if plus {
        seq!['+']
    } else {
        Seq::<char>::empty()
    }) + zeros(k) + decimal(n) + log_suffix()
}

/// Such a name is ASCII, and its UTF-8 bytes are its characters.
proof fn lemma_log_name_bytes(plus: bool, k: nat, n: nat)
    ensures
        encode_utf8(log_name(plus, k, n)) == ascii_bytes(log_name(plus, k, n)),
{
    let sign = if plus {
        seq!['+']
    } else {
        Seq::<char>::empty()
    };
    let stem = sign + zeros(k) + decimal(n);
    let name = log_name(plus, k, n);
    assert(name == stem + log_suffix());
    lemma_decimal_digits(n);
    assert(vstd::utf8::is_ascii_chars(name)) by {
        assert forall|i: int| 0 <= i < name.len() implies '\0' <= #[trigger] name[i] <= '\u{7f}' by {
            if i < sign.len() {
                assert(name[i] == '+');
            } else if i < sign.len() + k {
                assert(name[i] == '0');
            } else if i < stem.len() {
                let c = decimal(n)[i - sign.len() - k];
                assert(name[i] == c);
                assert('0' <= c <= '9');
            } else {
                assert(name[i] == log_suffix()[i - stem.len()]);
                assert(i - stem.len() < 4);
            }
        }
    }
    vstd::utf8::is_ascii_chars_encode_utf8(name);
    assert(encode_utf8(name) =~= ascii_bytes(name));
}

/// Digits whose value is 0 are all zeros.
proof fn lemma_zero_digits(d: Seq<u8>)
    requires
        all_digits(d),
        digits_value(d) == 0,
    ensures
        d == ascii_bytes(zeros(d.len())),
    decreases d.len(),
{
    if d.len() > 0 {
        let p = d.drop_last();
        assert(all_digits(p)) by {
            assert forall|i: int| 0 <= i < p.len() implies is_digit(#[trigger] p[i]) by {
                assert(p[i] == d[i]);
            }
        }
        assert(is_digit(d[d.len() - 1]));
        assert(digits_value(d) == digits_value(p) * 10 + (d.last() - 48) as nat);
        assert(d.last() == 48 && digits_value(p) == 0);
        lemma_zero_digits(p);
        assert('0' as u8 == 48u8);
        assert forall|i: int| 0 <= i < d.len() implies d[i] == #[trigger] ascii_bytes(zeros(d.len()))[i] by {
            if i < p.len() {
                assert(d[i] == p[i]);
                assert(p[i] == ascii_bytes(zeros(p.len()))[i]);
            }
        }
        assert(d =~= ascii_bytes(zeros(d.len())));
    }
}

/// Digits that spell `n` are some zeros followed by the decimal digits of
/// `n`.
proof fn lemma_digits_spell_decimal(d: Seq<u8>, n: nat)
    requires
        all_digits(d),
        d.len() > 0,
        digits_value(d) == n,
    ensures
        d.len() >= decimal(n).len(),
        d == ascii_bytes(zeros((d.len() - decimal(n).len()) as nat) + decimal(n)),
    decreases d.len(),
{
    let p = d.drop_last();
    let c = d.last();
    assert(is_digit(d[d.len() - 1]));
    assert(all_digits(p)) by {
        assert forall|i: int| 0 <= i < p.len() implies is_digit(#[trigger] p[i]) by {
            assert(p[i] == d[i]);
        }
    }
    let v = digits_value(p);
    let r = (c - 48) as nat;
    assert(n == v * 10 + r);
    assert(n / 10 == v && n % 10 == r) by (nonlinear_arith)
        requires
            n == v * 10 + r,
            r < 10,
    ;
    lemma_decimal_digits(n);
    if n < 10 {
        assert(decimal(n) == seq![digit_char(n)]);
        assert(digit_char(n) as u8 == 48 + n);
        if p.len() > 0 {
            lemma_zero_digits(p);
        }
        assert('0' as u8 == 48u8);
        let e = ascii_bytes(zeros((d.len() - 1) as nat) + decimal(n));
        assert forall|i: int| 0 <= i < d.len() implies d[i] == #[trigger] e[i] by {
            if i < p.len() {
                assert(d[i] == p[i]);
                assert(p[i] == ascii_bytes(zeros(p.len()))[i]);
            }
        }
        assert(d =~= e);
    } else {
        assert(p.len() > 0);
        lemma_digits_spell_decimal(p, n / 10);
        let j = (p.len() - decimal(n / 10).len()) as nat;
        assert(decimal(n) == decimal(n / 10).push(digit_char(n % 10)));
        assert(digit_char(n % 10) as u8 == 48 + n % 10);
        let e = ascii_bytes(zeros(j) + decimal(n));
        let e0 = ascii_bytes(zeros(j) + decimal(n / 10));
        assert(p == e0);
        assert forall|i: int| 0 <= i < d.len() implies d[i] == #[trigger] e[i] by {
            if i < p.len() {
                assert(d[i] == p[i]);
                assert(p[i] == e0[i]);
                if i >= j {
                    assert(decimal(n)[i - j] == decimal(n / 10)[i - j]);
                }
            }
        }
        assert(d =~= e);
    }
}

/// Reading a log's number back from a name: a stem made of an optional `+`,
/// any number of zeros and the decimal digits of `n`, followed by `.log`,
/// names log `n`, whatever the stem's length.
pub proof fn lemma_log_name_reads_its_number(n: u64, plus: bool, k: nat)
    ensures
        log_id_of_name(encode_utf8(log_name(plus, k, n as nat))) == Some(n),
{
    let sign = if plus {
        seq!['+']
    } else {
        Seq::<char>::empty()
    };
    let stem = sign + zeros(k) + decimal(n as nat);
    let name = log_name(plus, k, n as nat);
    assert(name == stem + log_suffix());
    lemma_decimal_digits(n as nat);
    lemma_log_name_bytes(plus, k, n as nat);
    let b = encode_utf8(name);
    let d = ascii_bytes(decimal(n as nat));
    let dot = stem.len() as int;
    assert forall|j: int| dot < j < b.len() implies b[j] != 46 by {
        assert(b[j] == name[j] as u8);
        assert(name[j] == log_suffix()[j - dot]);
    }
    assert(b[dot] == 46);
    lemma_last_dot_at(b, dot);
    assert(b.subrange(dot + 1, b.len() as int) =~= seq![108u8, 111u8, 103u8]);
    let sb = b.subrange(0, dot);
    assert(sb =~= ascii_bytes(sign) + ascii_bytes(zeros(k)) + d);
    let digits = ascii_bytes(zeros(k)) + d;
    assert(unsigned_part(sb) =~= digits) by {
        if !plus && k == 0 {
            assert(sb[0] == d[0]);
        } else if !plus {
            assert(sb[0] == 48);
        }
    }
    lemma_leading_zeros(k, d);
    assert(all_digits(digits)) by {
        assert forall|i: int| 0 <= i < digits.len() implies is_digit(#[trigger] digits[i]) by {
            if i >= k {
                assert(digits[i] == d[i - k]);
            }
        }
    }
}

/// The name that the store gives log `n`, its decimal number followed by
/// `.log`, names log `n`.
pub proof fn lemma_log_name_round_trip(n: u64)
    ensures
        log_id_of_name(encode_utf8(decimal(n as nat) + log_suffix())) == Some(n),
{
    lemma_log_name_reads_its_number(n, false, 0);
    assert(log_name(false, 0, n as nat) =~= decimal(n as nat) + log_suffix());
}

/// Only such names are logs: a name that names log `n` is an optional `+`,
/// some zeros and the decimal digits of `n`, followed by `.log`.
pub proof fn lemma_log_names_are_decimal(s: Seq<char>, n: u64)
    requires
        log_id_of_name(encode_utf8(s)) == Some(n),
    ensures
        exists|plus: bool, k: nat| s == log_name(plus, k, n as nat),
{
    let b = encode_utf8(s);
    let i = last_dot(b);
    lemma_last_dot(b);
    let tail = b.subrange(i + 1, b.len() as int);
    assert(tail == seq![108u8, 111u8, 103u8]);
    let sb = b.subrange(0, i);
    let plus = sb.len() > 0 && sb[0] == 43;
    let d = unsigned_part(sb);
    lemma_digits_spell_decimal(d, n as nat);
    let k = (d.len() - decimal(n as nat).len()) as nat;
    lemma_log_name_bytes(plus, k, n as nat);
    let sign = if plus {
        seq!['+']
    } else {
        Seq::<char>::empty()
    };
    assert(ascii_bytes(sign) + d == sb) by {
        if plus {
            assert(ascii_bytes(sign) =~= seq![43u8]);
        }
        assert(ascii_bytes(sign) + d =~= sb);
    }
    assert(b =~= sb + seq![46u8] + tail);
    let name = log_name(plus, k, n as nat);
    assert(ascii_bytes(name) =~= ascii_bytes(sign) + ascii_bytes(zeros(k) + decimal(n as nat))
        + seq![46u8, 108u8, 111u8, 103u8]);
    assert(encode_utf8(name) =~= b);
    vstd::utf8::encode_utf8_decode_utf8(s);
    vstd::utf8::encode_utf8_decode_utf8(name);
    assert(s == name);
}

/// The number of the log that the file `name` is, if it is one.
pub fn log_id_from_file_name(name: &str) -> (r: Option<u64>)
    ensures
        r == log_id_of_name(encode_utf8(name@)),
{
    let b = name.as_bytes();
    let ghost bs = b@;
    assert(bs == encode_utf8(name@));
    let n = b.len();
    let mut i = n;
    while i > 0 && b[i - 1] != 46
        invariant
            i <= n,
            n == bs.len(),
            b@ == bs,
            forall|j: int| i <= j < n ==> bs[j] != 46,
        decreases i,
    {
        i = i - 1;
    }
    proof {
        lemma_last_dot(bs);
        assert(last_dot(bs) == i - 1) by {
            if last_dot(bs) > i - 1 {
                assert(bs[last_dot(bs)] == 46);
            }
            if last_dot(bs) < i - 1 {
                assert(bs[i - 1] == 46);
            }
        }
    }
    if i < 2 {
        return None;
    }
    let dot = i - 1;
    if n - i != 3 || b[i] != 108 || b[i + 1] != 111 || b[i + 2] != 103 {
        proof {
            if n - i == 3 {
                assert(bs.subrange(i as int, n as int)[0] == b[i as int]);
                assert(bs.subrange(i as int, n as int)[1] == b[i + 1]);
                assert(bs.subrange(i as int, n as int)[2] == b[i + 2]);
            } else {
                assert(bs.subrange(i as int, n as int).len() != 3);
            }
        }
        return None;
    }
    assert(bs.subrange(i as int, n as int) =~= seq![108u8, 111u8, 103u8]);
    let ghost stem = bs.subrange(0, dot as int);
    assert(log_id_of_name(bs) == parse_u64(stem));
    let mut start: usize = 0;
    if b[0] == 43 {
        start = 1;
    }
    let ghost d = if stem.len() > 0 && stem[0] == 43 {
        stem.drop_first()
    } else {
        stem
    };
    assert(stem[0] == b[0]);
    assert(d =~= bs.subrange(start as int, dot as int));
    if start >= dot {
        assert(d.len() == 0);
        return None;
    }
    let mut value: u64 = 0;
    let mut k = start;
    while k < dot
        invariant
            start <= k <= dot,
            dot < n,
            n == bs.len(),
            b@ == bs,
            d == bs.subrange(start as int, dot as int),
            stem == bs.subrange(0, dot as int),
            d == unsigned_part(stem),
            bs == encode_utf8(name@),
            log_id_of_name(bs) == parse_u64(stem),
            forall|t: int| start <= t < k ==> is_digit(#[trigger] bs[t]),
            value == digits_value(bs.subrange(start as int, k as int)),
        decreases dot - k,
    {
        let c = b[k];
        if c < 48 || c > 57 {
            proof {
                assert(d[k - start] == c);
                assert(!is_digit(d[k - start]));
                assert(parse_u64(stem) == None::<u64>);
            }
            return None;
        }
        assert(bs.subrange(start as int, k + 1).drop_last() =~= bs.subrange(start as int, k as int));
        assert(digits_value(bs.subrange(start as int, k + 1)) == value * 10 + (c - 48));
        let digit = (c - 48) as u64;
        let next = match value.checked_mul(10) {
            Some(v) => v.checked_add(digit),
            None => None,
        };
        match next {
            Some(v) => {
                value = v;
            },
            None => {
                proof {
                    assert(digits_value(bs.subrange(start as int, k + 1)) > u64::MAX);
                    if all_digits(d) {
                        lemma_digits_value_grows(d, k + 1 - start);
                        assert(d.subrange(0, k + 1 - start) =~= bs.subrange(start as int, k + 1));
                    }
                    assert(parse_u64(stem) == None::<u64>);
                }
                return None;
            },
        }
        k = k + 1;
    }
    assert(bs.subrange(start as int, dot as int) =~= d);
    Some(value)
}

/// The numbers of the logs among the directory entries `names`, in
/// the order of `names`, as many times as they occur.
pub open spec fn log_ids_of_names(names: Seq<Seq<char>>) -> Seq<u64>
    decreases names.len(),
{
    if names.len() == 0 {
        Seq::empty()
    } else {
        let rest = log_ids_of_names(names.drop_last());
        match log_id_of_name(encode_utf8(names.last())) {
            Some(id) => rest.push(id),
            None => rest,
        }
    }
}

/// The numbers of the logs among the directory entries `names`, each
/// once, in increasing order: the order in which the logs are read on open.
/// Two names for one number (`5.log` and `05.log`) are one log, read once.
pub fn log_ids_from_file_names(names: &Vec<String>) -> (r: Vec<u64>)
    ensures
        strictly_increasing(r@),
        forall|id: u64|
            #[trigger] r@.contains(id) <==> log_ids_of_names(names@.map_values(|s: String| s@)).contains(id),
{
    let ghost views = names@.map_values(|s: String| s@);
    let mut ids: Vec<u64> = Vec::new();
    let mut i: usize = 0;
    while i < names.len()
        invariant
            0 <= i <= names@.len(),
            views == names@.map_values(|s: String| s@),
            strictly_increasing(ids@),
            forall|id: u64|
                #[trigger] ids@.contains(id) <==> log_ids_of_names(views.subrange(0, i as int)).contains(id),
        decreases names@.len() - i,
    {
        assert(views.subrange(0, i + 1).drop_last() =~= views.subrange(0, i as int));
        let ghost prefix = views.subrange(0, i as int);
        let ghost next = views.subrange(0, i + 1);
        assert(next.last() == names@[i as int]@);
        match log_id_from_file_name(names[i].as_str()) {
            Some(id) => {
                assert(log_ids_of_names(next) == log_ids_of_names(prefix).push(id));
                let mut p: usize = 0;
                while p < ids.len() && ids[p] < id
                    invariant
                        0 <= p <= ids@.len(),
                        forall|t: int| 0 <= t < p ==> ids@[t] < id,
                    decreases ids@.len() - p,
                {
                    p = p + 1;
                }
                let ghost before = ids@;
                if p < ids.len() && ids[p] == id {
                    proof {
                        assert forall|x: u64| #[trigger] ids@.contains(x) <==> log_ids_of_names(next).contains(x) by {
                            if log_ids_of_names(next).contains(x) && x != id {
                                let t = choose|t: int| 0 <= t < log_ids_of_names(next).len()
                                    && log_ids_of_names(next)[t] == x;
                                assert(log_ids_of_names(prefix)[t] == x);
                            }
                            if x == id {
                                assert(log_ids_of_names(next)[log_ids_of_names(prefix).len() as int] == id);
                            }
                            if log_ids_of_names(prefix).contains(x) {
                                let t = choose|t: int| 0 <= t < log_ids_of_names(prefix).len()
                                    && log_ids_of_names(prefix)[t] == x;
                                assert(log_ids_of_names(next)[t] == x);
                            }
                        }
                    }
                } else {
                    ids.insert(p, id);
                    proof {
                        assert forall|a: int, c: int| 0 <= a < c < ids@.len() implies ids@[a] < ids@[c] by {
                            if a < p && c > p {
                                assert(before[c - 1] > before[a]);
                            }
                            if a == p && c > p {
                                assert(before[c - 1] >= before[p as int]);
                            }
                        }
                        assert forall|x: u64| #[trigger] ids@.contains(x) <==> log_ids_of_names(next).contains(x) by {
                            if ids@.contains(x) && x != id {
                                let t = choose|t: int| 0 <= t < ids@.len() && ids@[t] == x;
                                if t < p {
                                    assert(before[t] == x);
                                } else {
                                    assert(before[t - 1] == x);
                                }
                                assert(before.contains(x));
                                let u = choose|u: int| 0 <= u < log_ids_of_names(prefix).len()
                                    && log_ids_of_names(prefix)[u] == x;
                                assert(log_ids_of_names(next)[u] == x);
                            }
                            if x == id {
                                assert(ids@[p as int] == id);
                                assert(log_ids_of_names(next)[log_ids_of_names(prefix).len() as int] == id);
                            }
                            if log_ids_of_names(next).contains(x) && x != id {
                                let t = choose|t: int| 0 <= t < log_ids_of_names(next).len()
                                    && log_ids_of_names(next)[t] == x;
                                assert(log_ids_of_names(prefix)[t] == x);
                                assert(before.contains(x));
                                let u = choose|u: int| 0 <= u < before.len() && before[u] == x;
                                if u < p {
                                    assert(ids@[u] == x);
                                } else {
                                    assert(ids@[u + 1] == x);
                                }
                            }
                        }
                    }
                }
            },
            None => {
                proof {
                    assert(log_ids_of_names(next) == log_ids_of_names(prefix));
                }
            },
        }
        i = i + 1;
    }
    assert(views.subrange(0, i as int) =~= views);
    ids
}

} // verus!
