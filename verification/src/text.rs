//! Character-sequence groundwork for the endpoint grammar: decimal and
//! hexadecimal digit runs, their numeric values, rendering numbers back to
//! text, and splitting/joining on a separator character.
use vstd::prelude::*;

verus! {

pub open spec fn is_dec_digit(c: char) -> bool {
    '0' <= c && c <= '9'
}

pub open spec fn dec_digit_val(c: char) -> nat {
    (c as nat - '0' as nat) as nat
}

pub open spec fn is_hex_digit(c: char) -> bool {
    ('0' <= c && c <= '9') || ('a' <= c && c <= 'f') || ('A' <= c && c <= 'F')
}

pub open spec fn hex_digit_val(c: char) -> nat {
    if '0' <= c && c <= '9' {
        (c as nat - '0' as nat) as nat
    } else if 'a' <= c && c <= 'f' {
        (c as nat - 'a' as nat + 10) as nat
    } else {
        (c as nat - 'A' as nat + 10) as nat
    }
}

pub open spec fn all_dec_digits(s: Seq<char>) -> bool {
    forall|i: int| 0 <= i < s.len() ==> is_dec_digit(#[trigger] s[i])
}

pub open spec fn all_hex_digits(s: Seq<char>) -> bool {
    forall|i: int| 0 <= i < s.len() ==> is_hex_digit(#[trigger] s[i])
}

/// Numeric value of a decimal digit run, most significant digit first.
pub open spec fn dec_value(s: Seq<char>) -> nat
    decreases s.len(),
{
    if s.len() == 0 {
        0
    } else {
        dec_value(s.drop_last()) * 10 + dec_digit_val(s.last())
    }
}

/// Numeric value of a hexadecimal digit run, most significant digit first.
pub open spec fn hex_value(s: Seq<char>) -> nat
    decreases s.len(),
{
    if s.len() == 0 {
        0
    } else {
        hex_value(s.drop_last()) * 16 + hex_digit_val(s.last())
    }
}

pub open spec fn has_char(s: Seq<char>, c: char) -> bool {
    exists|i: int| 0 <= i < s.len() && s[i] == c
}

pub open spec fn dec_char(n: nat) -> char {
    (('0' as u32) + (n as u32)) as char
}

pub open spec fn hex_char(n: nat) -> char {
    if n < 10 {
        dec_char(n)
    } else {
        (('a' as u32) + ((n - 10) as u32)) as char
    }
}

/// Decimal rendering of `n`, no leading zeros (`0` renders as "0").
pub open spec fn dec_text(n: nat) -> Seq<char>
    decreases n,
{
    if n < 10 {
        seq![dec_char(n)]
    } else {
        dec_text(n / 10).push(dec_char(n % 10))
    }
}

/// Lowercase hexadecimal rendering of `n`, no leading zeros.
pub open spec fn hex_text(n: nat) -> Seq<char>
    decreases n,
{
    if n < 16 {
        seq![hex_char(n)]
    } else {
        hex_text(n / 16).push(hex_char(n % 16))
    }
}

pub proof fn lemma_dec_value_extend(s: Seq<char>, i: int)
    requires
        0 <= i < s.len(),
    ensures
        dec_value(s.take(i + 1)) == dec_value(s.take(i)) * 10 + dec_digit_val(s[i]),
{
    assert(s.take(i + 1).drop_last() =~= s.take(i));
    assert(s.take(i + 1).last() == s[i]);
}

pub proof fn lemma_hex_value_extend(s: Seq<char>, i: int)
    requires
        0 <= i < s.len(),
    ensures
        hex_value(s.take(i + 1)) == hex_value(s.take(i)) * 16 + hex_digit_val(s[i]),
{
    assert(s.take(i + 1).drop_last() =~= s.take(i));
    assert(s.take(i + 1).last() == s[i]);
}

pub proof fn lemma_dec_value_prefix_le(s: Seq<char>, i: int)
    requires
        0 <= i <= s.len(),
    ensures
        dec_value(s.take(i)) <= dec_value(s),
    decreases s.len(),
{
    if i < s.len() {
        assert(s.drop_last().take(i) =~= s.take(i));
        lemma_dec_value_prefix_le(s.drop_last(), i);
    } else {
        assert(s.take(i) =~= s);
    }
}

pub proof fn lemma_dec_text_props(n: nat)
    ensures
        dec_text(n).len() >= 1,
        all_dec_digits(dec_text(n)),
        dec_value(dec_text(n)) == n,
        n > 0 ==> dec_text(n)[0] != '0',
        n == 0 ==> dec_text(n) =~= seq!['0'],
        !has_char(dec_text(n), ':'),
        !has_char(dec_text(n), '.'),
        !has_char(dec_text(n), ']'),
        !has_char(dec_text(n), '['),
    decreases n,
{
    if n < 10 {
        assert(dec_value(Seq::<char>::empty()) == 0);
        assert(seq![dec_char(n)].drop_last() =~= Seq::<char>::empty());
        assert(dec_value(seq![dec_char(n)]) == dec_digit_val(dec_char(n)));
    } else {
        lemma_dec_text_props(n / 10);
        let t = dec_text(n / 10);
        assert(t.push(dec_char(n % 10)).drop_last() =~= t);
        assert(dec_value(dec_text(n)) == dec_value(t) * 10 + dec_digit_val(dec_char(n % 10)));
        assert(dec_digit_val(dec_char(n % 10)) == n % 10);
        assert((n / 10) * 10 + n % 10 == n) by {
            vstd::arithmetic::div_mod::lemma_fundamental_div_mod(n as int, 10);
        }
        assert forall|i: int| 0 <= i < dec_text(n).len() implies is_dec_digit(
            #[trigger] dec_text(n)[i],
        ) by {
            if i < t.len() {
                assert(dec_text(n)[i] == t[i]);
            } else {
                assert(dec_text(n)[i] == dec_char(n % 10));
            }
        }
        assert(dec_text(n)[0] == t[0]);
    }
}

pub proof fn lemma_hex_text_props(n: nat)
    ensures
        hex_text(n).len() >= 1,
        all_hex_digits(hex_text(n)),
        hex_value(hex_text(n)) == n,
        n < 16 ==> hex_text(n).len() == 1,
        n < 256 ==> hex_text(n).len() <= 2,
        n < 4096 ==> hex_text(n).len() <= 3,
        n < 65536 ==> hex_text(n).len() <= 4,
    decreases n,
{
    if n < 16 {
        assert(hex_value(Seq::<char>::empty()) == 0);
        assert(seq![hex_char(n)].drop_last() =~= Seq::<char>::empty());
        assert(hex_value(seq![hex_char(n)]) == hex_digit_val(hex_char(n)));
        assert(hex_digit_val(hex_char(n)) == n);
    } else {
        lemma_hex_text_props(n / 16);
        let t = hex_text(n / 16);
        assert(t.push(hex_char(n % 16)).drop_last() =~= t);
        assert(hex_value(hex_text(n)) == hex_value(t) * 16 + hex_digit_val(hex_char(n % 16)));
        assert(hex_digit_val(hex_char(n % 16)) == n % 16);
        assert((n / 16) * 16 + n % 16 == n) by {
            vstd::arithmetic::div_mod::lemma_fundamental_div_mod(n as int, 16);
        }
        assert forall|i: int| 0 <= i < hex_text(n).len() implies is_hex_digit(
            #[trigger] hex_text(n)[i],
        ) by {
            if i < t.len() {
                assert(hex_text(n)[i] == t[i]);
            } else {
                assert(hex_text(n)[i] == hex_char(n % 16));
            }
        }
    }
}

/// Split `s` on every occurrence of `sep`. The result always has one part
/// more than `s` has separators; parts may be empty.
pub open spec fn split_on(s: Seq<char>, sep: char) -> Seq<Seq<char>>
    decreases s.len(),
{
    if s.len() == 0 {
        seq![Seq::<char>::empty()]
    } else if s[0] == sep {
        seq![Seq::<char>::empty()] + split_on(s.drop_first(), sep)
    } else {
        let rest = split_on(s.drop_first(), sep);
        rest.update(0, seq![s[0]] + rest[0])
    }
}

pub proof fn lemma_split_len_pos(s: Seq<char>, sep: char)
    ensures
        split_on(s, sep).len() >= 1,
    decreases s.len(),
{
    if s.len() > 0 {
        lemma_split_len_pos(s.drop_first(), sep);
    }
}

/// A separator-free sequence is one single part.
pub proof fn lemma_split_no_sep(s: Seq<char>, sep: char)
    requires
        !has_char(s, sep),
    ensures
        split_on(s, sep) =~~= seq![s],
    decreases s.len(),
{
    lemma_split_len_pos(s, sep);
    if s.len() > 0 {
        assert(s[0] != sep);
        assert(!has_char(s.drop_first(), sep)) by {
            assert forall|i: int| 0 <= i < s.drop_first().len() implies s.drop_first()[i] != sep by {
                assert(s.drop_first()[i] == s[i + 1]);
            }
        }
        lemma_split_no_sep(s.drop_first(), sep);
        assert(seq![s[0]] + s.drop_first() =~= s);
    }
}

/// Splitting `a + [sep] + rest` where `a` is separator-free peels off `a`.
pub proof fn lemma_split_at_sep(a: Seq<char>, rest: Seq<char>, sep: char)
    requires
        !has_char(a, sep),
    ensures
        split_on(a + seq![sep] + rest, sep) =~~= seq![a] + split_on(rest, sep),
    decreases a.len(),
{
    let s = a + seq![sep] + rest;
    lemma_split_len_pos(rest, sep);
    if a.len() == 0 {
        assert(s =~= seq![sep] + rest);
        assert(s[0] == sep);
        assert(s.drop_first() =~= rest);
    } else {
        assert(s[0] == a[0]);
        assert(a[0] != sep);
        assert(!has_char(a.drop_first(), sep)) by {
            assert forall|i: int| 0 <= i < a.drop_first().len() implies a.drop_first()[i] != sep by {
                assert(a.drop_first()[i] == a[i + 1]);
            }
        }
        lemma_split_at_sep(a.drop_first(), rest, sep);
        assert(s.drop_first() =~= a.drop_first() + seq![sep] + rest);
        lemma_split_len_pos(s.drop_first(), sep);
        assert(split_on(s.drop_first(), sep) =~~= seq![a.drop_first()] + split_on(rest, sep));
        assert(split_on(s.drop_first(), sep)[0] =~= a.drop_first());
        assert(seq![s[0]] + a.drop_first() =~= a);
    }
}

/// Join parts with `sep` between consecutive parts.
pub open spec fn join_with(parts: Seq<Seq<char>>, sep: char) -> Seq<char>
    decreases parts.len(),
{
    if parts.len() == 0 {
        Seq::<char>::empty()
    } else if parts.len() == 1 {
        parts[0]
    } else {
        parts[0] + seq![sep] + join_with(parts.drop_first(), sep)
    }
}

/// Splitting a join of separator-free parts recovers the parts.
pub proof fn lemma_split_join(parts: Seq<Seq<char>>, sep: char)
    requires
        parts.len() >= 1,
        forall|i: int| 0 <= i < parts.len() ==> !has_char(#[trigger] parts[i], sep),
    ensures
        split_on(join_with(parts, sep), sep) =~~= parts,
    decreases parts.len(),
{
    if parts.len() == 1 {
        lemma_split_no_sep(parts[0], sep);
        assert(seq![parts[0]] =~~= parts);
    } else {
        lemma_split_join(parts.drop_first(), sep);
        lemma_split_at_sep(parts[0], join_with(parts.drop_first(), sep), sep);
        assert(seq![parts[0]] + parts.drop_first() =~~= parts);
    }
}

/// A join of nonempty separator-free parts never holds two adjacent
/// separators.
pub proof fn lemma_join_no_adjacent_sep(parts: Seq<Seq<char>>, sep: char, i: int)
    requires
        parts.len() >= 1,
        forall|k: int| 0 <= k < parts.len() ==> !has_char(#[trigger] parts[k], sep),
        forall|k: int| 0 <= k < parts.len() ==> (#[trigger] parts[k]).len() >= 1,
        0 <= i,
        i + 1 < join_with(parts, sep).len(),
    ensures
        !(join_with(parts, sep)[i] == sep && join_with(parts, sep)[i + 1] == sep),
    decreases parts.len(),
{
    let j = join_with(parts, sep);
    let p0 = parts[0];
    if parts.len() == 1 {
        assert(j[i] == p0[i]);
    } else {
        let rest = join_with(parts.drop_first(), sep);
        assert(j =~= p0 + seq![sep] + rest);
        if i < p0.len() {
            assert(j[i] == p0[i]);
        } else if i == p0.len() {
            // j[i] is the separator itself; the next character starts the
            // second part, which is nonempty and separator-free.
            assert(j[i + 1] == rest[0]);
            assert(rest[0] == parts.drop_first()[0][0]) by {
                if parts.drop_first().len() == 1 {
                } else {
                    assert(rest =~= parts.drop_first()[0] + seq![sep] + join_with(
                        parts.drop_first().drop_first(),
                        sep,
                    ));
                }
            }
        } else {
            assert(j[i] == rest[i - p0.len() - 1]);
            assert(j[i + 1] == rest[i - p0.len()]);
            lemma_join_no_adjacent_sep(parts.drop_first(), sep, i - p0.len() - 1);
        }
    }
}

/// Every character of a join is a separator or a character of some part.
pub proof fn lemma_join_chars(parts: Seq<Seq<char>>, sep: char, i: int)
    requires
        parts.len() >= 1,
        0 <= i < join_with(parts, sep).len(),
    ensures
        join_with(parts, sep)[i] == sep || exists|k: int, l: int|
            0 <= k < parts.len() && 0 <= l < parts[k].len() && join_with(parts, sep)[i]
                == parts[k][l],
    decreases parts.len(),
{
    let j = join_with(parts, sep);
    let p0 = parts[0];
    if parts.len() == 1 {
        assert(j[i] == parts[0][i]);
    } else {
        let rest = join_with(parts.drop_first(), sep);
        assert(j =~= p0 + seq![sep] + rest);
        if i < p0.len() {
            assert(j[i] == parts[0][i]);
        } else if i == p0.len() {
        } else {
            lemma_join_chars(parts.drop_first(), sep, i - p0.len() - 1);
            if j[i] != sep {
                let (k, l): (int, int) = choose|k: int, l: int|
                    0 <= k < parts.drop_first().len() && 0 <= l < parts.drop_first()[k].len()
                        && rest[i - p0.len() - 1] == parts.drop_first()[k][l];
                assert(j[i] == parts[k + 1][l]);
            }
        }
    }
}

/// Find the first occurrence of `c` within `chars[from..to]`.
pub fn find_char_from(chars: &Vec<char>, from: usize, to: usize, c: char) -> (r: Option<usize>)
    requires
        from <= to <= chars.len(),
    ensures
        match r {
            Some(j) => from <= j < to && chars@[j as int] == c && forall|k: int|
                from <= k < j ==> chars@[k] != c,
            None => forall|k: int| from <= k < to ==> chars@[k] != c,
        },
{
    let mut i: usize = from;
    while i < to
        invariant
            from <= i <= to <= chars.len(),
            forall|k: int| from <= k < i ==> chars@[k] != c,
        decreases to - i,
    {
        if chars[i] == c {
            return Some(i);
        }
        i = i + 1;
    }
    None
}

/// Value of the decimal run `chars[from..to]`, or `None` when the run holds a
/// non-digit or its value exceeds `limit`.
pub fn dec_run_value(chars: &Vec<char>, from: usize, to: usize, limit: u32) -> (r: Option<u32>)
    requires
        from <= to <= chars.len(),
        limit <= 1000000,
    ensures
        ({
            let sub = chars@.subrange(from as int, to as int);
            match r {
                Some(v) => all_dec_digits(sub) && v == dec_value(sub) && v <= limit,
                None => !(all_dec_digits(sub) && dec_value(sub) <= limit),
            }
        }),
{
    let ghost sub = chars@.subrange(from as int, to as int);
    let mut i: usize = from;
    let mut acc: u32 = 0;
    while i < to
        invariant
            from <= i <= to <= chars.len(),
            limit <= 1000000,
            acc <= limit,
            sub == chars@.subrange(from as int, to as int),
            all_dec_digits(sub.take(i - from)),
            acc == dec_value(sub.take(i - from)),
        decreases to - i,
    {
        let c = chars[i];
        if !('0' <= c && c <= '9') {
            assert(sub[i - from] == c);
            return None;
        }
        let d: u32 = (c as u32) - ('0' as u32);
        proof {
            lemma_dec_value_extend(sub, i - from);
        }
        acc = acc * 10 + d;
        if acc > limit {
            proof {
                lemma_dec_value_prefix_le(sub, i + 1 - from);
            }
            return None;
        }
        i = i + 1;
    }
    proof {
        assert(sub.take(to - from) =~= sub);
    }
    Some(acc)
}

/// Value of the hexadecimal run `chars[from..to]` (at most four digits), or
/// `None` when the run holds a non-hexadecimal character.
pub fn hex_run_value(chars: &Vec<char>, from: usize, to: usize) -> (r: Option<u16>)
    requires
        from <= to <= chars.len(),
        to - from <= 4,
    ensures
        ({
            let sub = chars@.subrange(from as int, to as int);
            match r {
                Some(v) => all_hex_digits(sub) && v == hex_value(sub),
                None => !all_hex_digits(sub),
            }
        }),
{
    let ghost sub = chars@.subrange(from as int, to as int);
    let mut i: usize = from;
    let mut acc: u32 = 0;
    while i < to
        invariant
            from <= i <= to <= chars.len(),
            to - from <= 4,
            sub == chars@.subrange(from as int, to as int),
            all_hex_digits(sub.take(i - from)),
            acc == hex_value(sub.take(i - from)),
            acc < pow16(i - from),
        decreases to - i,
    {
        let c = chars[i];
        let d: u32 = if '0' <= c && c <= '9' {
            (c as u32) - ('0' as u32)
        } else if 'a' <= c && c <= 'f' {
            (c as u32) - ('a' as u32) + 10
        } else if 'A' <= c && c <= 'F' {
            (c as u32) - ('A' as u32) + 10
        } else {
            assert(sub[i - from] == c);
            return None;
        };
        proof {
            lemma_hex_value_extend(sub, i - from);
        }
        acc = acc * 16 + d;
        i = i + 1;
    }
    proof {
        assert(sub.take(to - from) =~= sub);
    }
    Some(acc as u16)
}

/// Sixteen to the power `e`, for the small exponents the group scanner needs.
pub open spec fn pow16(e: int) -> int {
    if e <= 0 {
        1
    } else if e == 1 {
        16
    } else if e == 2 {
        256
    } else if e == 3 {
        4096
    } else {
        65536
    }
}

} // verus!
