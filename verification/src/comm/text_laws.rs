use vstd::prelude::*;

use crate::comm::text::{
    all_digits, decimal, digit_char, digits_value, int_parse, is_white_space, lemma_digits_prefix_le, parse_unsigned,
    scan_int, signed_decimal, split_from, tokens, tokens_from,
};

verus! {

/// `w` holds no white space.
pub open spec fn no_white_space(w: Seq<char>) -> bool {
    forall|i: int| 0 <= i < w.len() ==> !is_white_space(#[trigger] w[i])
}

/// `w` is a word: non-empty, without white space.
pub open spec fn is_word(w: Seq<char>) -> bool {
    w.len() > 0 && no_white_space(w)
}

/// `w` holds no `sep`.
pub open spec fn free_of(w: Seq<char>, sep: char) -> bool {
    forall|i: int| 0 <= i < w.len() ==> #[trigger] w[i] != sep
}

/// `parts` joined with single spaces, built from the front.
pub open spec fn join_front(parts: Seq<Seq<char>>) -> Seq<char>
    decreases parts.len(),
{
    if parts.len() == 0 {
        Seq::empty()
    } else if parts.len() == 1 {
        parts[0]
    } else {
        parts[0] + seq![' '] + join_front(parts.drop_first())
    }
}

/// Every character of `t` is white space.
pub open spec fn all_white_space(t: Seq<char>) -> bool {
    forall|i: int| 0 <= i < t.len() ==> is_white_space(#[trigger] t[i])
}

proof fn lemma_tokens_consume(s: Seq<char>, i: int, cur: Seq<char>, acc: Seq<Seq<char>>, w: Seq<char>)
    requires
        0 <= i,
        i + w.len() <= s.len(),
        s.subrange(i, i + w.len()) == w,
        no_white_space(w),
    ensures
        tokens_from(s, i, cur, acc) == tokens_from(s, i + w.len(), cur + w, acc),
    decreases w.len(),
{
    if w.len() == 0 {
        assert(cur + w =~= cur);
    } else {
        assert(s[i] == w[0]);
        assert(!is_white_space(w[0]));
        let w2 = w.drop_first();
        assert(s.subrange(i + 1, i + 1 + w2.len()) =~= w2);
        lemma_tokens_consume(s, i + 1, cur.push(w[0]), acc, w2);
        assert(cur.push(w[0]) + w2 =~= cur + w);
    }
}

proof fn lemma_tokens_white_tail(s: Seq<char>, i: int, acc: Seq<Seq<char>>)
    requires
        0 <= i <= s.len(),
        all_white_space(s.subrange(i, s.len() as int)),
    ensures
        tokens_from(s, i, Seq::empty(), acc) == acc,
    decreases s.len() - i,
{
    if i < s.len() {
        assert(s.subrange(i, s.len() as int)[0] == s[i]);
        assert(s.subrange(i + 1, s.len() as int) =~= s.subrange(i, s.len() as int).drop_first());
        lemma_tokens_white_tail(s, i + 1, acc);
    }
}

/// Reading the words of `s[i..]`, which are `parts` joined by single spaces and followed by
/// white space, gives `parts`.
pub proof fn lemma_tokens_join(s: Seq<char>, i: int, acc: Seq<Seq<char>>, parts: Seq<Seq<char>>, tail: Seq<char>)
    requires
        0 <= i <= s.len(),
        s.subrange(i, s.len() as int) == join_front(parts) + tail,
        forall|k: int| 0 <= k < parts.len() ==> is_word(#[trigger] parts[k]),
        all_white_space(tail),
    ensures
        tokens_from(s, i, Seq::empty(), acc) == acc + parts,
    decreases parts.len(),
{
    let rest = s.subrange(i, s.len() as int);
    if parts.len() == 0 {
        assert(rest =~= tail);
        lemma_tokens_white_tail(s, i, acc);
        assert(acc + parts =~= acc);
    } else {
        let w = parts[0];
        assert(is_word(w));
        assert(w.len() <= rest.len() && rest.subrange(0, w.len() as int) =~= w) by {
            if parts.len() == 1 {
                assert(rest =~= w + tail);
            } else {
                assert(rest =~= w + (seq![' '] + join_front(parts.drop_first()) + tail));
            }
        }
        assert(s.subrange(i, i + w.len()) =~= w) by {
            assert(s.subrange(i, i + w.len()) =~= rest.subrange(0, w.len() as int));
        }
        lemma_tokens_consume(s, i, Seq::empty(), acc, w);
        assert(Seq::<char>::empty() + w =~= w);
        let j = i + w.len();
        if parts.len() == 1 {
            assert(rest =~= w + tail);
            assert(rest.subrange(w.len() as int, rest.len() as int) =~= tail);
            assert(s.subrange(j, s.len() as int) =~= rest.subrange(w.len() as int, rest.len() as int));
            if j < s.len() {
                assert(is_white_space(tail[0]));
                assert(s[j] == tail[0]);
                assert(s.subrange(j + 1, s.len() as int) =~= tail.drop_first());
                lemma_tokens_white_tail(s, j + 1, acc.push(w));
            }
            assert(acc.push(w) =~= acc + parts);
        } else {
            let more = parts.drop_first();
            assert(rest =~= w + seq![' '] + (join_front(more) + tail));
            assert(rest[w.len() as int] == ' ');
            assert(s[j] == rest[w.len() as int]);
            assert(rest.subrange(w.len() as int + 1, rest.len() as int) =~= join_front(more) + tail);
            assert(s.subrange(j + 1, s.len() as int) =~= rest.subrange(w.len() as int + 1, rest.len() as int));
            assert(is_white_space(' '));
            assert(s.subrange(j + 1, s.len() as int) =~= join_front(more) + tail);
            assert forall|k: int| 0 <= k < more.len() implies is_word(#[trigger] more[k]) by {
                assert(more[k] == parts[k + 1]);
            }
            lemma_tokens_join(s, j + 1, acc.push(w), more, tail);
            assert(acc.push(w) + more =~= acc + parts);
        }
    }
}

/// The words of `join_front(parts) + tail` are `parts`, if they are words and `tail` is white space.
pub proof fn lemma_tokens_of_join(parts: Seq<Seq<char>>, tail: Seq<char>)
    requires
        forall|k: int| 0 <= k < parts.len() ==> is_word(#[trigger] parts[k]),
        all_white_space(tail),
    ensures
        tokens(join_front(parts) + tail) == parts,
{
    let s = join_front(parts) + tail;
    assert(s.subrange(0, s.len() as int) =~= s);
    lemma_tokens_join(s, 0, Seq::empty(), parts, tail);
    assert(Seq::<Seq<char>>::empty() + parts =~= parts);
}

/// Adding a part at the end adds a space and the part.
pub proof fn lemma_join_front_push(parts: Seq<Seq<char>>, w: Seq<char>)
    requires
        parts.len() > 0,
    ensures
        join_front(parts.push(w)) == join_front(parts) + seq![' '] + w,
    decreases parts.len(),
{
    if parts.len() == 1 {
        assert(parts.push(w).drop_first() =~= seq![w]);
        assert(join_front(seq![w]) == w);
    } else {
        assert(parts.push(w).drop_first() =~= parts.drop_first().push(w));
        lemma_join_front_push(parts.drop_first(), w);
        assert(parts.push(w)[0] == parts[0]);
    }
}

proof fn lemma_split_consume(s: Seq<char>, sep: char, i: int, cur: Seq<char>, acc: Seq<Seq<char>>, w: Seq<char>)
    requires
        0 <= i,
        i + w.len() <= s.len(),
        s.subrange(i, i + w.len()) == w,
        free_of(w, sep),
    ensures
        split_from(s, sep, i, cur, acc) == split_from(s, sep, i + w.len(), cur + w, acc),
    decreases w.len(),
{
    if w.len() == 0 {
        assert(cur + w =~= cur);
    } else {
        assert(s[i] == w[0]);
        let w2 = w.drop_first();
        assert(s.subrange(i + 1, i + 1 + w2.len()) =~= w2);
        lemma_split_consume(s, sep, i + 1, cur.push(w[0]), acc, w2);
        assert(cur.push(w[0]) + w2 =~= cur + w);
    }
}

/// Splitting `a`, `sep`, `b` at `sep` gives `a` and `b`, if neither holds `sep`.
pub proof fn lemma_split_two(a: Seq<char>, b: Seq<char>, sep: char)
    requires
        free_of(a, sep),
        free_of(b, sep),
    ensures
        split_from(a + seq![sep] + b, sep, 0, Seq::empty(), Seq::empty()) == seq![a, b],
{
    let s = a + seq![sep] + b;
    assert(s.subrange(0, a.len() as int) =~= a);
    lemma_split_consume(s, sep, 0, Seq::empty(), Seq::empty(), a);
    assert(Seq::<char>::empty() + a =~= a);
    assert(s[a.len() as int] == sep);
    let j: int = a.len() as int + 1;
    assert(s.subrange(j, j + b.len()) =~= b);
    lemma_split_consume(s, sep, j, Seq::empty(), seq![a], b);
    assert(Seq::<char>::empty() + b =~= b);
}

/// Splitting `a`, `sep`, `b`, `sep`, `c` at `sep` gives `a`, `b` and `c`, if none holds `sep`.
pub proof fn lemma_split_three(a: Seq<char>, b: Seq<char>, c: Seq<char>, sep: char)
    requires
        free_of(a, sep),
        free_of(b, sep),
        free_of(c, sep),
    ensures
        split_from(a + seq![sep] + b + seq![sep] + c, sep, 0, Seq::empty(), Seq::empty()) == seq![a, b, c],
{
    let s = a + seq![sep] + b + seq![sep] + c;
    assert(s.subrange(0, a.len() as int) =~= a);
    lemma_split_consume(s, sep, 0, Seq::empty(), Seq::empty(), a);
    assert(Seq::<char>::empty() + a =~= a);
    assert(s[a.len() as int] == sep);
    let j: int = a.len() as int + 1;
    assert(s.subrange(j, j + b.len()) =~= b);
    lemma_split_consume(s, sep, j, Seq::empty(), seq![a], b);
    assert(Seq::<char>::empty() + b =~= b);
    let k: int = j + b.len();
    assert(s[k] == sep);
    assert(seq![a].push(b) =~= seq![a, b]);
    assert(s.subrange(k + 1, k + 1 + c.len()) =~= c);
    lemma_split_consume(s, sep, k + 1, Seq::empty(), seq![a, b], c);
    assert(Seq::<char>::empty() + c =~= c);
    assert(seq![a, b].push(c) =~= seq![a, b, c]);
}

proof fn lemma_digit_char(d: nat)
    requires
        d < 10,
    ensures
        '0' <= digit_char(d) <= '9',
        (digit_char(d) as int) - ('0' as int) == d,
{
}

/// The decimal text of `n` is a non-empty run of ASCII digits with value `n`.
pub proof fn lemma_decimal(n: nat)
    ensures
        decimal(n).len() > 0,
        all_digits(decimal(n)),
        digits_value(decimal(n)) == n,
    decreases n,
{
    let s = decimal(n);
    if n < 10 {
        lemma_digit_char(n);
        assert(s.drop_last() =~= Seq::<char>::empty());
        assert(digits_value(Seq::<char>::empty()) == 0);
        assert(s.last() == digit_char(n));
        assert(digits_value(s) == digits_value(s.drop_last()) * 10 + ((s.last() as int) - ('0' as int)) as nat);
    } else {
        lemma_decimal(n / 10);
        lemma_digit_char(n % 10);
        assert(s.drop_last() =~= decimal(n / 10));
        assert(s.last() == digit_char(n % 10));
        assert(digits_value(s) == digits_value(s.drop_last()) * 10 + ((s.last() as int) - ('0' as int)) as nat);
        assert(n == (n / 10) * 10 + n % 10);
        assert forall|i: int| 0 <= i < s.len() implies '0' <= #[trigger] s[i] && s[i] <= '9' by {
            if i < s.len() - 1 {
                assert(s[i] == decimal(n / 10)[i]);
            }
        }
    }
}

/// Digits are neither white space nor any of the given separators.
pub proof fn lemma_digits_are_words(s: Seq<char>)
    requires
        all_digits(s),
    ensures
        no_white_space(s),
        free_of(s, '_'),
        free_of(s, '#'),
{
    assert forall|i: int| 0 <= i < s.len() implies !is_white_space(#[trigger] s[i]) by {
        assert('0' <= s[i] && s[i] <= '9');
    }
    assert forall|i: int| 0 <= i < s.len() implies #[trigger] s[i] != '_' by {
        assert('0' <= s[i] && s[i] <= '9');
    }
}

/// The decimal text of `n` reads back as `n`.
pub proof fn lemma_decimal_parses(n: nat, max: int)
    requires
        n <= max,
    ensures
        parse_unsigned(decimal(n), max) == Some(n),
{
    lemma_decimal(n);
    assert(decimal(n)[0] != '+') by {
        assert('0' <= decimal(n)[0] && decimal(n)[0] <= '9');
    }
}

proof fn lemma_scan_digits(s: Seq<char>, from: int, k: int, neg: bool, min: int, max: int)
    requires
        0 <= from <= k <= s.len(),
        all_digits(s.subrange(from, s.len() as int)),
        min <= 0 <= max,
        neg ==> min <= -(digits_value(s.subrange(from, s.len() as int)) as int),
        !neg ==> digits_value(s.subrange(from, s.len() as int)) <= max,
    ensures
        scan_int(
            s,
            k,
            if neg {
                -(digits_value(s.subrange(from, k)) as int)
            } else {
                digits_value(s.subrange(from, k)) as int
            },
            neg,
            min,
            max,
        ) == Ok::<int, int>(
            if neg {
                -(digits_value(s.subrange(from, s.len() as int)) as int)
            } else {
                digits_value(s.subrange(from, s.len() as int)) as int
            },
        ),
    decreases s.len() - k,
{
    let body = s.subrange(from, s.len() as int);
    if k < s.len() {
        assert(s[k] == body[k - from]);
        let p = s.subrange(from, k + 1);
        assert(p.drop_last() =~= s.subrange(from, k));
        assert(p.last() == s[k]);
        assert(p =~= body.subrange(0, k + 1 - from));
        lemma_digits_prefix_le(body, k + 1 - from);
        lemma_scan_digits(s, from, k + 1, neg, min, max);
    } else {
        assert(s.subrange(from, k) =~= body);
    }
}

/// The decimal text of `v` reads back as `v` with the integer types' reading, in any range
/// holding `v`.
pub proof fn lemma_int_parse_decimal(v: int, signed: bool, min: int, max: int)
    requires
        min <= 0 <= max,
        min <= v <= max,
        !signed ==> v >= 0,
    ensures
        int_parse(signed_decimal(v), signed, min, max) == Ok::<int, Seq<char>>(v),
{
    let a = if v < 0 { -v } else { v };
    lemma_decimal(a as nat);
    let d = decimal(a as nat);
    let s = signed_decimal(v);
    if v < 0 {
        assert(s == seq!['-'] + d);
        assert(s.subrange(1, s.len() as int) =~= d);
        assert(s.subrange(1, 1) =~= Seq::<char>::empty());
        lemma_scan_digits(s, 1, 1, true, min, max);
    } else {
        assert(s == d);
        assert(s[0] != '+' && s[0] != '-') by {
            assert('0' <= d[0] && d[0] <= '9');
        }
        assert(s.subrange(0, s.len() as int) =~= d);
        assert(s.subrange(0, 0) =~= Seq::<char>::empty());
        lemma_scan_digits(s, 0, 0, false, min, max);
    }
}

} // verus!
