//! Character-level helpers shared by the date and record formats.

use vstd::prelude::*;

verus! {

/// `String::push` appends one character to the end of the string.
pub assume_specification[ String::push ](s: &mut String, c: char)
    ensures
        final(s)@ == old(s)@.push(c),
;

/// The characters of `s`, in order.
pub fn chars_of(s: &str) -> (chars: Vec<char>)
    ensures
        chars@ == s@,
{
    let mut chars: Vec<char> = Vec::new();
    for c in it: s.chars()
        invariant
            chars@ == it.history(),
            it.seq() == s@,
    {
        chars.push(c);
    }
    chars
}

/// The string made of `chars[from..to]`.
pub fn string_of(chars: &Vec<char>, from: usize, to: usize) -> (s: String)
    requires
        from <= to <= chars.len(),
    ensures
        s@ == chars@.subrange(from as int, to as int),
{
    let mut s = String::new();
    let mut i: usize = from;
    while i < to
        invariant
            from <= i <= to <= chars.len(),
            s@ == chars@.subrange(from as int, i as int),
        decreases to - i,
    {
        s.push(chars[i]);
        i += 1;
    }
    s
}

/// The fields of `s` between occurrences of `sep`. The empty text has one
/// empty field; each separator closes the current field and opens a new,
/// empty one; any other character extends the current field.
pub open spec fn split(s: Seq<char>, sep: char) -> Seq<Seq<char>>
    decreases s.len(),
{
    if s.len() == 0 {
        seq![Seq::<char>::empty()]
    } else {
        let before = split(s.drop_last(), sep);
        if s.last() == sep {
            before.push(Seq::<char>::empty())
        } else {
            before.drop_last().push(before.last().push(s.last()))
        }
    }
}

/// The fields put together again, `sep` between each two.
pub open spec fn join(fields: Seq<Seq<char>>, sep: char) -> Seq<char>
    decreases fields.len(),
{
    if fields.len() == 0 {
        Seq::<char>::empty()
    } else if fields.len() == 1 {
        fields[0]
    } else {
        join(fields.drop_last(), sep).push(sep) + fields.last()
    }
}

/// Whether `sep` occurs nowhere in `s`.
pub open spec fn free_of(s: Seq<char>, sep: char) -> bool {
    forall|i: int| 0 <= i < s.len() ==> #[trigger] s[i] != sep
}

/// The views of a vector of character vectors.
pub open spec fn texts(v: Seq<Vec<char>>) -> Seq<Seq<char>> {
    Seq::new(v.len(), |i: int| v[i]@)
}

/// The views of a vector of strings.
pub open spec fn strings(v: Seq<String>) -> Seq<Seq<char>> {
    Seq::new(v.len(), |i: int| v[i]@)
}

/// The strings that hold the given runs of characters.
pub fn strings_of(runs: &Vec<Vec<char>>) -> (list: Vec<String>)
    ensures
        strings(list@) == texts(runs@),
{
    let mut list: Vec<String> = Vec::new();
    let mut i: usize = 0;
    while i < runs.len()
        invariant
            i <= runs.len(),
            list.len() == i,
            forall|j: int| 0 <= j < i ==> (#[trigger] list@[j])@ == runs@[j]@,
        decreases runs.len() - i,
    {
        let run = &runs[i];
        let s = string_of(run, 0, run.len());
        proof {
            assert(run@.subrange(0, run@.len() as int) =~= run@);
        }
        list.push(s);
        i += 1;
    }
    proof {
        assert(strings(list@) =~= texts(runs@));
    }
    list
}

/// A text always has at least one field, and no field holds the separator.
pub proof fn lemma_split_fields(s: Seq<char>, sep: char)
    ensures
        split(s, sep).len() >= 1,
        forall|i: int| 0 <= i < split(s, sep).len() ==> free_of(#[trigger] split(s, sep)[i], sep),
    decreases s.len(),
{
    if s.len() > 0 {
        lemma_split_fields(s.drop_last(), sep);
    }
}

/// The fields of a text, put together again, are the text. With
/// `lemma_split_fields` this says what the fields are: the one way to cut
/// the text at its separators.
pub proof fn lemma_split_join(s: Seq<char>, sep: char)
    ensures
        join(split(s, sep), sep) == s,
    decreases s.len(),
{
    if s.len() == 0 {
        assert(split(s, sep)[0] =~= s);
    } else {
        let before = split(s.drop_last(), sep);
        let c = s.last();
        lemma_split_join(s.drop_last(), sep);
        lemma_split_fields(s.drop_last(), sep);
        assert(s.drop_last().push(c) =~= s);
        if c == sep {
            let fields = before.push(Seq::<char>::empty());
            assert(fields.drop_last() =~= before);
            assert(join(before, sep).push(sep) + Seq::<char>::empty() =~= join(before, sep).push(
                sep,
            ));
        } else {
            let fields = before.drop_last().push(before.last().push(c));
            if before.len() == 1 {
                assert(fields[0] =~= before[0].push(c));
            } else {
                assert(fields.drop_last() =~= before.drop_last());
                assert(join(before.drop_last(), sep).push(sep) + before.last().push(c) =~= (join(
                    before.drop_last(),
                    sep,
                ).push(sep) + before.last()).push(c));
            }
        }
    }
}

/// Appending text without a separator extends the last field.
pub proof fn lemma_split_extend(s: Seq<char>, t: Seq<char>, sep: char)
    requires
        free_of(t, sep),
    ensures
        split(s + t, sep) == split(s, sep).drop_last().push(split(s, sep).last() + t),
    decreases t.len(),
{
    lemma_split_fields(s, sep);
    if t.len() == 0 {
        assert(s + t =~= s);
        assert(split(s, sep).last() + t =~= split(s, sep).last());
        assert(split(s, sep).drop_last().push(split(s, sep).last()) =~= split(s, sep));
    } else {
        let t0 = t.drop_last();
        lemma_split_extend(s, t0, sep);
        assert((s + t).drop_last() =~= s + t0);
        assert((s + t).last() == t.last());
        let a = split(s, sep);
        assert((a.last() + t0).push(t.last()) =~= a.last() + t);
        assert(a.drop_last().push(a.last() + t0).drop_last() =~= a.drop_last());
    }
}

/// Three runs of text without the separator, joined by it, split into
/// exactly those three.
pub proof fn lemma_split_three(a: Seq<char>, b: Seq<char>, c: Seq<char>, sep: char)
    requires
        free_of(a, sep),
        free_of(b, sep),
        free_of(c, sep),
    ensures
        split(a + seq![sep] + b + seq![sep] + c, sep) == seq![a, b, c],
{
    let e = Seq::<char>::empty();
    lemma_split_extend(e, a, sep);
    assert(e + a =~= a);
    assert(split(e, sep) =~= seq![e]);
    assert(split(a, sep) =~= seq![a]);
    let a1 = a + seq![sep];
    assert(a1.drop_last() =~= a);
    assert(split(a1, sep) =~= seq![a, e]);
    lemma_split_extend(a1, b, sep);
    assert(e + b =~= b);
    assert(split(a1 + b, sep) =~= seq![a, b]);
    let b1 = a1 + b + seq![sep];
    assert(b1.drop_last() =~= a1 + b);
    assert(split(b1, sep) =~= seq![a, b, e]);
    lemma_split_extend(b1, c, sep);
    assert(e + c =~= c);
    assert(split(b1 + c, sep) =~= seq![a, b, c]);
}

/// Splits `chars` at every `sep`.
pub fn split_chars(chars: &Vec<char>, sep: char) -> (fields: Vec<Vec<char>>)
    ensures
        texts(fields@) == split(chars@, sep),
{
    let mut fields: Vec<Vec<char>> = Vec::new();
    let mut current: Vec<char> = Vec::new();
    let mut i: usize = 0;
    while i < chars.len()
        invariant
            i <= chars.len(),
            texts(fields@).push(current@) == split(chars@.take(i as int), sep),
        decreases chars.len() - i,
    {
        let c = chars[i];
        proof {
            assert(chars@.take(i + 1).drop_last() =~= chars@.take(i as int));
            assert(chars@.take(i + 1).last() == c);
        }
        let ghost before = texts(fields@).push(current@);
        if c == sep {
            fields.push(current);
            current = Vec::new();
            proof {
                assert(texts(fields@) =~= before);
            }
        } else {
            current.push(c);
            proof {
                assert(texts(fields@).push(current@) =~= before.drop_last().push(
                    before.last().push(c),
                ));
            }
        }
        i += 1;
    }
    proof {
        assert(chars@.take(i as int) =~= chars@);
    }
    let ghost before = texts(fields@).push(current@);
    fields.push(current);
    proof {
        assert(texts(fields@) =~= before);
    }
    fields
}

/// Whether `c` is one of the ASCII digits `0` to `9`.
pub open spec fn is_digit(c: char) -> bool {
    '0' <= c <= '9'
}

/// The value of the ASCII digit `c`.
pub open spec fn digit_value(c: char) -> nat {
    (c as nat - '0' as nat) as nat
}

/// The ASCII digit for `d`, where `d < 10`.
pub open spec fn digit_char(d: nat) -> char {
    ('0' as nat + d) as char
}

/// Whether `s` consists of ASCII digits only.
pub open spec fn all_digits(s: Seq<char>) -> bool {
    forall|i: int| 0 <= i < s.len() ==> is_digit(#[trigger] s[i])
}

/// The number that the digits of `s` denote in base ten.
pub open spec fn decimal_value(s: Seq<char>) -> nat
    decreases s.len(),
{
    if s.len() == 0 {
        0
    } else {
        decimal_value(s.drop_last()) * 10 + digit_value(s.last())
    }
}

/// The number that `s` denotes as unsigned decimal text: an optional `+`
/// followed by one or more digits. Anything else denotes no number.
pub open spec fn unsigned_value(s: Seq<char>) -> Option<nat> {
    let body = if s.len() > 0 && s[0] == '+' {
        s.skip(1)
    } else {
        s
    };
    if body.len() > 0 && all_digits(body) {
        Some(decimal_value(body))
    } else {
        None
    }
}

/// The decimal text of `n`, without sign or leading zeros.
pub open spec fn decimal_text(n: nat) -> Seq<char>
    decreases n,
{
    if n < 10 {
        seq![digit_char(n)]
    } else {
        decimal_text(n / 10).push(digit_char(n % 10))
    }
}

/// The decimal text of `n`, with a leading zero where it has one digit only.
pub open spec fn two_digit_text(n: nat) -> Seq<char> {
    if decimal_text(n).len() > 1 {
        decimal_text(n)
    } else {
        seq!['0'] + decimal_text(n)
    }
}

/// A longer run of digits denotes no smaller a number than its prefix.
pub proof fn lemma_decimal_value_prefix(s: Seq<char>, k: int)
    requires
        0 <= k <= s.len(),
    ensures
        decimal_value(s.take(k)) <= decimal_value(s),
    decreases s.len() - k,
{
    if k == s.len() {
        assert(s.take(k) =~= s);
    } else {
        lemma_decimal_value_prefix(s.drop_last(), k);
        assert(s.drop_last().take(k) =~= s.take(k));
    }
}

/// Leading zeros do not change the number.
pub proof fn lemma_decimal_value_leading_zero(s: Seq<char>)
    ensures
        decimal_value(seq!['0'] + s) == decimal_value(s),
    decreases s.len(),
{
    let z = seq!['0'];
    if s.len() == 0 {
        assert(z + s =~= z);
        assert(z.drop_last() =~= Seq::<char>::empty());
        assert(decimal_value(z.drop_last()) == 0);
    } else {
        lemma_decimal_value_leading_zero(s.drop_last());
        assert((z + s).drop_last() =~= z + s.drop_last());
    }
}

/// The decimal text of a number is a non-empty run of digits that denotes it.
pub proof fn lemma_decimal_text(n: nat)
    ensures
        decimal_text(n).len() >= 1,
        all_digits(decimal_text(n)),
        decimal_value(decimal_text(n)) == n,
    decreases n,
{
    if n < 10 {
        let t = seq![digit_char(n)];
        assert(t.drop_last() =~= Seq::<char>::empty());
        assert(decimal_value(t.drop_last()) == 0);
    } else {
        lemma_decimal_text(n / 10);
        let t = decimal_text(n / 10);
        assert(t.push(digit_char(n % 10)).drop_last() =~= t);
    }
}

/// Reading back the decimal text of a number gives that number, padded or not.
pub proof fn lemma_unsigned_value_of_text(n: nat)
    ensures
        unsigned_value(decimal_text(n)) == Some(n),
        unsigned_value(two_digit_text(n)) == Some(n),
{
    lemma_decimal_text(n);
    let t = decimal_text(n);
    assert(is_digit(t[0]));
    lemma_decimal_value_leading_zero(t);
    let p = seq!['0'] + t;
    assert(all_digits(p)) by {
        assert forall|i: int| 0 <= i < p.len() implies is_digit(#[trigger] p[i]) by {
            if i > 0 {
                assert(p[i] == t[i - 1]);
            }
        }
    }
}

fn digit_of(c: char) -> (d: Option<u8>)
    ensures
        d matches Some(v) ==> is_digit(c) && v == digit_value(c),
        d is None ==> !is_digit(c),
{
    if c >= '0' && c <= '9' {
        Some((c as u32 - '0' as u32) as u8)
    } else {
        None
    }
}

/// The `u64` that `s` denotes, if it denotes one.
pub open spec fn u64_of_text(s: Seq<char>) -> Option<u64> {
    match unsigned_value(s) {
        Some(v) => if v <= u64::MAX {
            Some(v as u64)
        } else {
            None
        },
        None => None,
    }
}

/// The `u32` that `s` denotes, if it denotes one.
pub open spec fn u32_of_text(s: Seq<char>) -> Option<u32> {
    match unsigned_value(s) {
        Some(v) => if v <= u32::MAX {
            Some(v as u32)
        } else {
            None
        },
        None => None,
    }
}

/// Reads unsigned decimal text: an optional `+`, then one or more digits,
/// whose value must fit in 64 bits.
pub fn parse_u64(chars: &Vec<char>) -> (value: Option<u64>)
    ensures
        value == u64_of_text(chars@),
{
    let n = chars.len();
    let start: usize = if n > 0 && chars[0] == '+' {
        1
    } else {
        0
    };
    if start == n {
        return None;
    }
    let ghost body = chars@.skip(start as int);
    proof {
        assert(chars@.skip(0) =~= chars@);
    }
    let mut acc: u64 = 0;
    let mut i: usize = start;
    while i < n
        invariant
            start <= i <= n == chars.len(),
            start < n,
            start == (if chars@.len() > 0 && chars@[0] == '+' {
                1int
            } else {
                0int
            }),
            body == chars@.skip(start as int),
            chars@.skip(0) == chars@,
            all_digits(body.take(i - start)),
            acc == decimal_value(body.take(i - start)),
        decreases n - i,
    {
        let c = chars[i];
        let ghost next = body.take(i - start + 1);
        proof {
            assert(next.drop_last() =~= body.take(i - start));
            assert(next.last() == c);
        }
        match digit_of(c) {
            None => {
                proof {
                    assert(!is_digit(body[i - start]));
                }
                return None;
            },
            Some(d) => {
                proof {
                    lemma_decimal_value_prefix(body, i - start + 1);
                }
                if acc > (u64::MAX - d as u64) / 10 {
                    proof {
                        assert(decimal_value(next) == acc * 10 + d);
                        assert(decimal_value(body) > u64::MAX);
                    }
                    return None;
                }
                acc = acc * 10 + d as u64;
                proof {
                    assert(all_digits(next)) by {
                        assert forall|j: int| 0 <= j < next.len() implies is_digit(
                            #[trigger] next[j],
                        ) by {
                            if j < i - start {
                                assert(next[j] == body.take(i - start)[j]);
                            }
                        }
                    }
                }
            },
        }
        i += 1;
    }
    proof {
        assert(body.take(n - start) =~= body);
    }
    Some(acc)
}

/// Reads unsigned decimal text whose value must fit in 32 bits.
pub fn parse_u32(chars: &Vec<char>) -> (value: Option<u32>)
    ensures
        value == u32_of_text(chars@),
{
    match parse_u64(chars) {
        Some(v) => if v <= u32::MAX as u64 {
            Some(v as u32)
        } else {
            None
        },
        None => None,
    }
}

/// Appends the decimal text of `n` to `out`.
pub fn push_decimal(out: &mut String, n: u32)
    ensures
        final(out)@ == old(out)@ + decimal_text(n as nat),
    decreases n,
{
    if n >= 10 {
        push_decimal(out, n / 10);
    }
    let d: u8 = (n % 10) as u8;
    let c: char = (48u8 + d) as char;
    proof {
        assert(c == digit_char((n % 10) as nat));
        if n >= 10 {
            assert(old(out)@ + decimal_text(n as nat) =~= (old(out)@ + decimal_text(
                (n / 10) as nat,
            )).push(c));
        } else {
            assert(old(out)@ + decimal_text(n as nat) =~= old(out)@.push(c));
        }
    }
    out.push(c);
}

} // verus!
