use vstd::prelude::*;
use vstd::string::{StrSliceExecFns, StringExecFns};

verus! {

/// Whether `c` is white space in the sense of Unicode's `White_Space` property.
pub open spec fn is_white_space(c: char) -> bool {
    ||| c == ' '
    ||| ('\t' <= c && c <= '\r')
    ||| c == '\u{85}'
    ||| c == '\u{a0}'
    ||| c == '\u{1680}'
    ||| ('\u{2000}' <= c && c <= '\u{200a}')
    ||| c == '\u{2028}'
    ||| c == '\u{2029}'
    ||| c == '\u{202f}'
    ||| c == '\u{205f}'
    ||| c == '\u{3000}'
}

/// Splits `s[i..]` into its maximal runs of non-white-space characters; `cur` is the run
/// being read and `acc` the runs read so far.
pub open spec fn tokens_from(s: Seq<char>, i: int, cur: Seq<char>, acc: Seq<Seq<char>>) -> Seq<Seq<char>>
    decreases s.len() - i,
{
    if i >= s.len() {
        if cur.len() > 0 {
            acc.push(cur)
        } else {
            acc
        }
    } else if is_white_space(s[i]) {
        tokens_from(s, i + 1, Seq::empty(), if cur.len() > 0 { acc.push(cur) } else { acc })
    } else {
        tokens_from(s, i + 1, cur.push(s[i]), acc)
    }
}

/// The maximal runs of non-white-space characters of `s`, in order.
pub open spec fn tokens(s: Seq<char>) -> Seq<Seq<char>> {
    tokens_from(s, 0, Seq::empty(), Seq::empty())
}

/// Splits `s[i..]` at every `sep`; `cur` is the part being read and `acc` the parts read so far.
pub open spec fn split_from(s: Seq<char>, sep: char, i: int, cur: Seq<char>, acc: Seq<Seq<char>>) -> Seq<Seq<char>>
    decreases s.len() - i,
{
    if i >= s.len() {
        acc.push(cur)
    } else if s[i] == sep {
        split_from(s, sep, i + 1, Seq::empty(), acc.push(cur))
    } else {
        split_from(s, sep, i + 1, cur.push(s[i]), acc)
    }
}

/// The parts of `s` between the occurrences of `sep` (one more than there are occurrences).
pub open spec fn split_at_char(s: Seq<char>, sep: char) -> Seq<Seq<char>> {
    split_from(s, sep, 0, Seq::empty(), Seq::empty())
}

/// `parts` joined with single spaces.
pub open spec fn join_spaced(parts: Seq<Seq<char>>) -> Seq<char>
    decreases parts.len(),
{
    if parts.len() == 0 {
        Seq::empty()
    } else if parts.len() == 1 {
        parts[0]
    } else {
        join_spaced(parts.drop_last()) + seq![' '] + parts.last()
    }
}

/// Whether every character of `s` is an ASCII digit.
pub open spec fn all_digits(s: Seq<char>) -> bool {
    forall|i: int| 0 <= i < s.len() ==> '0' <= #[trigger] s[i] && s[i] <= '9'
}

/// The number the ASCII digits of `s` denote.
pub open spec fn digits_value(s: Seq<char>) -> nat
    decreases s.len(),
{
    if s.len() == 0 {
        0
    } else {
        digits_value(s.drop_last()) * 10 + ((s.last() as int) - ('0' as int)) as nat
    }
}

/// The digits of `s` after an optional `+`, if they are ASCII digits and there is at least one.
pub open spec fn unsigned_text_value(s: Seq<char>) -> Option<nat> {
    let body = if s.len() > 0 && s[0] == '+' {
        s.drop_first()
    } else {
        s
    };
    if body.len() == 0 || !all_digits(body) {
        None
    } else {
        Some(digits_value(body))
    }
}

/// The value of `s` read as a decimal number of at most `max`, the way integer types read
/// text: an optional `+`, then at least one ASCII digit.
pub open spec fn parse_unsigned(s: Seq<char>, max: int) -> Option<nat> {
    match unsigned_text_value(s) {
        Some(v) => if v <= max {
            Some(v)
        } else {
            None
        },
        None => None,
    }
}

/// The value of `s` read as a signed decimal number in `[min, max]`: an optional `+` or
/// `-`, then at least one ASCII digit.
pub open spec fn parse_signed(s: Seq<char>, min: int, max: int) -> Option<int> {
    if s.len() > 0 && s[0] == '-' {
        let body = s.drop_first();
        if body.len() == 0 || !all_digits(body) {
            None
        } else if -(digits_value(body) as int) < min {
            None
        } else {
            Some(-(digits_value(body) as int))
        }
    } else {
        match unsigned_text_value(s) {
            Some(v) => if v <= max {
                Some(v as int)
            } else {
                None
            },
            None => None,
        }
    }
}

/// The character of digit `d` (0 to 9).
pub open spec fn digit_char(d: nat) -> char {
    if d == 0 {
        '0'
    } else if d == 1 {
        '1'
    } else if d == 2 {
        '2'
    } else if d == 3 {
        '3'
    } else if d == 4 {
        '4'
    } else if d == 5 {
        '5'
    } else if d == 6 {
        '6'
    } else if d == 7 {
        '7'
    } else if d == 8 {
        '8'
    } else {
        '9'
    }
}

/// `n` written in decimal, without leading zeros.
pub open spec fn decimal(n: nat) -> Seq<char>
    decreases n,
{
    if n < 10 {
        seq![digit_char(n)]
    } else {
        decimal(n / 10).push(digit_char(n % 10))
    }
}

/// `i` written in decimal, with a `-` if negative.
pub open spec fn signed_decimal(i: int) -> Seq<char> {
    if i < 0 {
        seq!['-'] + decimal((-i) as nat)
    } else {
        decimal(i as nat)
    }
}

/// Whether `c` is white space (see `is_white_space`).
pub fn white_space(c: char) -> (r: bool)
    ensures
        r == is_white_space(c),
{
    c == ' ' || ('\t' <= c && c <= '\r') || c == '\u{85}' || c == '\u{a0}' || c == '\u{1680}' || ('\u{2000}' <= c
        && c <= '\u{200a}') || c == '\u{2028}' || c == '\u{2029}' || c == '\u{202f}' || c == '\u{205f}' || c
        == '\u{3000}'
}

/// The maximal runs of non-white-space characters of `s`, in order.
pub fn split_white_space(s: &str) -> (r: Vec<String>)
    ensures
        r@.len() == tokens(s@).len(),
        forall|i: int| 0 <= i < r@.len() ==> (#[trigger] r@[i])@ == tokens(s@)[i],
{
    let n = s.unicode_len();
    let mut out: Vec<String> = Vec::new();
    let ghost mut acc: Seq<Seq<char>> = Seq::empty();
    let mut start: usize = 0;
    let mut i: usize = 0;
    assert(s@.subrange(0, 0) =~= Seq::<char>::empty());
    while i < n
        invariant
            n == s@.len(),
            start <= i <= n,
            out@.len() == acc.len(),
            forall|k: int| 0 <= k < out@.len() ==> (#[trigger] out@[k])@ == acc[k],
            tokens(s@) == tokens_from(s@, i as int, s@.subrange(start as int, i as int), acc),
        decreases n - i,
    {
        let c = s.get_char(i);
        if white_space(c) {
            let ghost cur = s@.subrange(start as int, i as int);
            if start < i {
                let t = <String as StringExecFns>::from_str(s.substring_char(start, i));
                out.push(t);
                proof {
                    acc = acc.push(cur);
                }
            }
            start = i + 1;
            assert(s@.subrange(start as int, i + 1) =~= Seq::<char>::empty());
        } else {
            assert(s@.subrange(start as int, i + 1) =~= s@.subrange(start as int, i as int).push(c));
        }
        i = i + 1;
    }
    if start < n {
        let t = <String as StringExecFns>::from_str(s.substring_char(start, n));
        out.push(t);
        proof {
            acc = acc.push(s@.subrange(start as int, n as int));
        }
    }
    out
}

/// The parts of `s` between the occurrences of `sep`.
pub fn split_at(s: &str, sep: char) -> (r: Vec<String>)
    ensures
        r@.len() == split_at_char(s@, sep).len(),
        forall|i: int| 0 <= i < r@.len() ==> (#[trigger] r@[i])@ == split_at_char(s@, sep)[i],
{
    let n = s.unicode_len();
    let mut out: Vec<String> = Vec::new();
    let ghost mut acc: Seq<Seq<char>> = Seq::empty();
    let mut start: usize = 0;
    let mut i: usize = 0;
    assert(s@.subrange(0, 0) =~= Seq::<char>::empty());
    while i < n
        invariant
            n == s@.len(),
            start <= i <= n,
            out@.len() == acc.len(),
            forall|k: int| 0 <= k < out@.len() ==> (#[trigger] out@[k])@ == acc[k],
            split_at_char(s@, sep) == split_from(s@, sep, i as int, s@.subrange(start as int, i as int), acc),
        decreases n - i,
    {
        let c = s.get_char(i);
        if c == sep {
            let ghost cur = s@.subrange(start as int, i as int);
            let t = <String as StringExecFns>::from_str(s.substring_char(start, i));
            out.push(t);
            proof {
                acc = acc.push(cur);
            }
            start = i + 1;
            assert(s@.subrange(start as int, i + 1) =~= Seq::<char>::empty());
        } else {
            assert(s@.subrange(start as int, i + 1) =~= s@.subrange(start as int, i as int).push(c));
        }
        i = i + 1;
    }
    let t = <String as StringExecFns>::from_str(s.substring_char(start, n));
    out.push(t);
    proof {
        acc = acc.push(s@.subrange(start as int, n as int));
    }
    out
}

/// The value of a prefix of a run of digits is at most the value of the whole run.
pub proof fn lemma_digits_prefix_le(s: Seq<char>, k: int)
    requires
        0 <= k <= s.len(),
        all_digits(s),
    ensures
        digits_value(s.subrange(0, k)) <= digits_value(s),
    decreases s.len() - k,
{
    if k < s.len() {
        lemma_digits_prefix_le(s, k + 1);
        let p = s.subrange(0, k + 1);
        assert(p.drop_last() =~= s.subrange(0, k));
        assert('0' <= p.last() && p.last() <= '9');
        assert(digits_value(p) >= digits_value(s.subrange(0, k))) by (nonlinear_arith)
            requires
                digits_value(p) == digits_value(p.drop_last()) * 10 + ((p.last() as int) - ('0' as int)) as nat,
                p.drop_last() == s.subrange(0, k),
                ('0' as int) <= (p.last() as int),
        ;
    } else {
        assert(s.subrange(0, k) =~= s);
    }
}

/// Reads the ASCII digits of `s[from..]` as a number of at most `max`; `None` if a character
/// is no digit, there is none, or the number is larger.
fn parse_digits(s: &str, from: usize, max: u64) -> (r: Option<u64>)
    requires
        from <= s@.len(),
        max <= u32::MAX,
    ensures
        ({
            let body = s@.subrange(from as int, s@.len() as int);
            r == if body.len() == 0 || !all_digits(body) || digits_value(body) > max {
                None::<u64>
            } else {
                Some(digits_value(body) as u64)
            }
        }),
{
    let n = s.unicode_len();
    let ghost body = s@.subrange(from as int, n as int);
    if from == n {
        return None;
    }
    let mut acc: u64 = 0;
    let mut i: usize = from;
    assert(body.subrange(0, 0) =~= Seq::<char>::empty());
    while i < n
        invariant
            n == s@.len(),
            from <= i <= n,
            from < n,
            max <= u32::MAX,
            body == s@.subrange(from as int, n as int),
            acc <= max,
            all_digits(body.subrange(0, i - from)),
            acc == digits_value(body.subrange(0, i - from)),
        decreases n - i,
    {
        let c = s.get_char(i);
        if !('0' <= c && c <= '9') {
            assert(body[i - from] == c);
            return None;
        }
        let d: u64 = (c as u32 - '0' as u32) as u64;
        let next = acc * 10 + d;
        proof {
            let p = body.subrange(0, i - from + 1);
            assert(p.drop_last() =~= body.subrange(0, i - from));
            assert(p.last() == c);
            assert(all_digits(p));
        }
        if next > max {
            proof {
                let p = body.subrange(0, i - from + 1);
                if all_digits(body) {
                    lemma_digits_prefix_le(body, i - from + 1);
                }
            }
            return None;
        }
        acc = next;
        i = i + 1;
    }
    assert(body.subrange(0, n - from) =~= body);
    Some(acc)
}

/// Reads `s` as a decimal number of at most `max` (see `parse_unsigned`).
pub fn parse_unsigned_text(s: &str, max: u64) -> (r: Option<u64>)
    requires
        max <= u32::MAX,
    ensures
        match parse_unsigned(s@, max as int) {
            Some(v) => r == Some(v as u64),
            None => r is None,
        },
{
    let n = s.unicode_len();
    let from: usize = if n > 0 && s.get_char(0) == '+' {
        1
    } else {
        0
    };
    proof {
        if from == 1 {
            assert(s@.subrange(1, n as int) =~= s@.drop_first());
        } else {
            assert(s@.subrange(0, n as int) =~= s@);
        }
    }
    parse_digits(s, from, max)
}

/// Reads `s` as a signed decimal number in `[-neg_max, max]` (see `parse_signed`).
pub fn parse_signed_text(s: &str, neg_max: u64, max: u64) -> (r: Option<i64>)
    requires
        max <= u32::MAX,
        neg_max <= u32::MAX,
    ensures
        match parse_signed(s@, -(neg_max as int), max as int) {
            Some(v) => r == Some(v as i64),
            None => r is None,
        },
{
    let n = s.unicode_len();
    if n > 0 && s.get_char(0) == '-' {
        assert(s@.subrange(1, n as int) =~= s@.drop_first());
        match parse_digits(s, 1, neg_max) {
            Some(v) => Some(-(v as i64)),
            None => None,
        }
    } else {
        match parse_unsigned_text(s, max) {
            Some(v) => Some(v as i64),
            None => None,
        }
    }
}

/// The text of digit `d` (0 to 9).
fn digit_str(d: u64) -> (r: &'static str)
    requires
        d < 10,
    ensures
        r@ == seq![digit_char(d as nat)],
{
    proof {
        reveal_strlit("0");
        reveal_strlit("1");
        reveal_strlit("2");
        reveal_strlit("3");
        reveal_strlit("4");
        reveal_strlit("5");
        reveal_strlit("6");
        reveal_strlit("7");
        reveal_strlit("8");
        reveal_strlit("9");
    }
    if d == 0 {
        "0"
    } else if d == 1 {
        "1"
    } else if d == 2 {
        "2"
    } else if d == 3 {
        "3"
    } else if d == 4 {
        "4"
    } else if d == 5 {
        "5"
    } else if d == 6 {
        "6"
    } else if d == 7 {
        "7"
    } else if d == 8 {
        "8"
    } else {
        "9"
    }
}

/// Appends `n` in decimal to `out`.
pub fn append_decimal(out: &mut String, n: u64)
    ensures
        final(out)@ == old(out)@ + decimal(n as nat),
    decreases n,
{
    if n >= 10 {
        append_decimal(out, n / 10);
        out.append(digit_str(n % 10));
        assert(decimal(n as nat) == decimal((n / 10) as nat).push(digit_char((n % 10) as nat)));
    } else {
        out.append(digit_str(n));
    }
}

/// Appends `i` in decimal, with a `-` if negative, to `out`.
pub fn append_signed_decimal(out: &mut String, i: i64)
    requires
        i > i64::MIN,
    ensures
        final(out)@ == old(out)@ + signed_decimal(i as int),
{
    proof {
        reveal_strlit("-");
    }
    if i < 0 {
        out.append("-");
        append_decimal(out, (-i) as u64);
    } else {
        append_decimal(out, i as u64);
    }
}

/// How reading an integer type from text goes wrong: as the integer types report it.
pub open spec fn int_error_text(code: int) -> Seq<char> {
    if code == 0 {
        "cannot parse integer from empty string"@
    } else if code == 1 {
        "invalid digit found in string"@
    } else if code == 2 {
        "number too large to fit in target type"@
    } else {
        "number too small to fit in target type"@
    }
}

/// Reads the digits `body[k..]` onto `acc` (subtracting them if `neg`), failing on a non-digit
/// (code 1), on leaving `[min, max]` upwards (code 2) or downwards (code 3).
pub open spec fn scan_int(body: Seq<char>, k: int, acc: int, neg: bool, min: int, max: int) -> Result<int, int>
    decreases body.len() - k,
{
    if k >= body.len() {
        Ok(acc)
    } else if !('0' <= body[k] && body[k] <= '9') {
        Err(1)
    } else {
        let d = (body[k] as int) - ('0' as int);
        let next = if neg {
            acc * 10 - d
        } else {
            acc * 10 + d
        };
        if next > max {
            Err(2)
        } else if next < min {
            Err(3)
        } else {
            scan_int(body, k + 1, next, neg, min, max)
        }
    }
}

/// Reads `s` as an integer in `[min, max]` (signed types accept a leading `-`, all a leading
/// `+`), the way the integer types read text; the error is the message they give.
pub open spec fn int_parse(s: Seq<char>, signed: bool, min: int, max: int) -> Result<int, Seq<char>> {
    if s.len() == 0 {
        Err(int_error_text(0))
    } else if (s[0] == '+' || s[0] == '-') && s.len() == 1 {
        Err(int_error_text(1))
    } else {
        let neg = signed && s[0] == '-';
        let from = if s[0] == '+' || neg { 1int } else { 0 };
        match scan_int(s, from, 0, neg, min, max) {
            Ok(v) => Ok(v),
            Err(c) => Err(int_error_text(c)),
        }
    }
}

/// What reading digits gives lies in the range read for.
pub proof fn lemma_scan_int_range(body: Seq<char>, k: int, acc: int, neg: bool, min: int, max: int)
    requires
        min <= acc <= max,
    ensures
        scan_int(body, k, acc, neg, min, max) matches Ok(v) ==> min <= v <= max,
    decreases body.len() - k,
{
    if k < body.len() && '0' <= body[k] && body[k] <= '9' {
        let d = (body[k] as int) - ('0' as int);
        let next = if neg {
            acc * 10 - d
        } else {
            acc * 10 + d
        };
        if min <= next <= max {
            lemma_scan_int_range(body, k + 1, next, neg, min, max);
        }
    }
}

/// Reads `s` as an integer in `[min, max]` (see `int_parse`).
pub fn parse_int(s: &str, signed: bool, min: i64, max: i64) -> (r: Result<i64, String>)
    requires
        -1000 <= min <= 0 <= max <= 1000,
    ensures
        match int_parse(s@, signed, min as int, max as int) {
            Ok(v) => r == Ok::<i64, String>(v as i64),
            Err(t) => r matches Err(e) && e@ == t,
        },
        r matches Ok(v) ==> min <= v <= max,
        int_parse(s@, signed, min as int, max as int) matches Ok(v) ==> min <= v <= max,
{
    proof {
        if s@.len() > 0 {
            let neg = signed && s@[0] == '-';
            let from = if s@[0] == '+' || neg { 1int } else { 0 };
            lemma_scan_int_range(s@, from, 0, neg, min as int, max as int);
        }
    }
    let n = s.unicode_len();
    if n == 0 {
        return Err(<String as StringExecFns>::from_str("cannot parse integer from empty string"));
    }
    let c0 = s.get_char(0);
    if (c0 == '+' || c0 == '-') && n == 1 {
        return Err(<String as StringExecFns>::from_str("invalid digit found in string"));
    }
    let neg = signed && c0 == '-';
    let mut k: usize = if c0 == '+' || neg {
        1
    } else {
        0
    };
    let mut acc: i64 = 0;
    while k < n
        invariant
            n == s@.len(),
            k <= n,
            -1000 <= min <= 0 <= max <= 1000,
            min <= acc <= max,
            int_parse(s@, signed, min as int, max as int) == match scan_int(s@, k as int, acc as int, neg, min as int, max as int) {
                Ok(v) => Ok::<int, Seq<char>>(v),
                Err(c) => Err(int_error_text(c)),
            },
        decreases n - k,
    {
        let c = s.get_char(k);
        if !('0' <= c && c <= '9') {
            return Err(<String as StringExecFns>::from_str("invalid digit found in string"));
        }
        let d: i64 = (c as u32 - '0' as u32) as i64;
        let next: i64 = if neg {
            acc * 10 - d
        } else {
            acc * 10 + d
        };
        if next > max {
            return Err(<String as StringExecFns>::from_str("number too large to fit in target type"));
        }
        if next < min {
            return Err(<String as StringExecFns>::from_str("number too small to fit in target type"));
        }
        acc = next;
        k = k + 1;
    }
    Ok(acc)
}

} // verus!
