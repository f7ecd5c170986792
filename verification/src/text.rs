use vstd::prelude::*;

verus! {

/// Appends one character to a string (std `String::push`).
#[verifier::external_body]
pub(crate) fn push_char(s: &mut String, c: char)
    ensures
        final(s)@ == old(s)@.push(c),
{
    s.push(c)
}

/// The characters of `s`, in order.
pub fn chars_of(s: &str) -> (r: Vec<char>)
    ensures
        r@ == s@,
{
    let mut r: Vec<char> = Vec::new();
    for c in it: s.chars()
        invariant
            r@ == it.seq().take(it.index() as int),
            it.seq() == s@,
    {
        r.push(c);
    }
    r
}

/// A string holding the characters of `v`, in order.
pub fn string_of(v: &Vec<char>) -> (r: String)
    ensures
        r@ == v@,
{
    let mut r = String::new();
    let mut i: usize = 0;
    while i < v.len()
        invariant
            i <= v.len(),
            r@ == v@.take(i as int),
        decreases v.len() - i,
    {
        push_char(&mut r, v[i]);
        proof {
            assert(v@.take(i as int).push(v@[i as int]) =~= v@.take(i + 1));
        }
        i = i + 1;
    }
    proof {
        assert(v@.take(v.len() as int) =~= v@);
    }
    r
}

} // verus!

verus! {

/// `c` is one of the ASCII digits `0`..`9`.
pub open spec fn is_digit(c: char) -> bool {
    '0' <= c && c <= '9'
}

/// Numeric value of an ASCII digit.
pub open spec fn digit_value(c: char) -> int {
    c as int - '0' as int
}

/// The character of the decimal digit `d` (for `d < 10`).
pub open spec fn digit_char(d: int) -> char {
    (d + 48) as char
}

/// Every character of `s` is a decimal digit.
pub open spec fn all_digits(s: Seq<char>) -> bool {
    forall|i: int| 0 <= i < s.len() ==> #[trigger] is_digit(s[i])
}

/// Value of a string of decimal digits, most significant first.
pub open spec fn digits_value(s: Seq<char>) -> nat
    decreases s.len(),
{
    if s.len() == 0 {
        0
    } else {
        (digits_value(s.drop_last()) * 10 + digit_value(s.last())) as nat
    }
}

/// The digits of an unsigned number text, after an optional leading `+`.
pub open spec fn unsigned_digits(s: Seq<char>) -> Seq<char> {
    if s.len() > 0 && s[0] == '+' {
        s.skip(1)
    } else {
        s
    }
}

/// `s` is accepted by `usize`'s `FromStr`: an optional `+`, then at least one
/// decimal digit, with a value that fits in a `usize`.
pub open spec fn parses_as_usize(s: Seq<char>) -> bool {
    let d = unsigned_digits(s);
    d.len() > 0 && all_digits(d) && digits_value(d) <= usize::MAX
}

/// The number that `s` denotes.
pub open spec fn usize_value(s: Seq<char>) -> nat {
    digits_value(unsigned_digits(s))
}

/// Canonical decimal text of `n` (no sign, no leading zeros).
pub open spec fn decimal(n: nat) -> Seq<char>
    decreases n,
{
    if n < 10 {
        seq![digit_char(n as int)]
    } else {
        decimal(n / 10).push(digit_char((n % 10) as int))
    }
}

/// Splits `s` at every occurrence of `sep`, as `str::split` does: `k`
/// separators give `k + 1` parts, some of which may be empty.
pub open spec fn split_seq(s: Seq<char>, sep: char) -> Seq<Seq<char>>
    decreases s.len(),
{
    if s.len() == 0 {
        seq![Seq::<char>::empty()]
    } else {
        let rest = split_seq(s.drop_last(), sep);
        if s.last() == sep {
            rest.push(Seq::<char>::empty())
        } else {
            rest.update(rest.len() - 1, rest.last().push(s.last()))
        }
    }
}

/// Joins `parts` with `sep` between consecutive parts, as `[&str]::join` does.
pub open spec fn join_seq(parts: Seq<Seq<char>>, sep: char) -> Seq<char>
    decreases parts.len(),
{
    if parts.len() == 0 {
        Seq::<char>::empty()
    } else if parts.len() == 1 {
        parts[0]
    } else {
        join_seq(parts.drop_last(), sep).push(sep) + parts.last()
    }
}

/// The views of a vector of character vectors.
pub open spec fn views(v: Seq<Vec<char>>) -> Seq<Seq<char>> {
    v.map_values(|p: Vec<char>| p@)
}

pub proof fn lemma_split_nonempty(s: Seq<char>, sep: char)
    ensures
        split_seq(s, sep).len() >= 1,
    decreases s.len(),
{
    if s.len() > 0 {
        lemma_split_nonempty(s.drop_last(), sep);
    }
}

pub proof fn lemma_decimal_digits(n: nat)
    ensures
        decimal(n).len() >= 1,
        all_digits(decimal(n)),
        digits_value(decimal(n)) == n,
        decimal(n)[0] != '+',
    decreases n,
{
    if n >= 10 {
        lemma_decimal_digits(n / 10);
        let d = decimal(n / 10);
        assert(decimal(n).drop_last() =~= d);
        assert(digit_value(digit_char((n % 10) as int)) == n % 10);
        assert(n == (n / 10) * 10 + n % 10);
        assert(decimal(n).last() == digit_char((n % 10) as int));
        assert(digits_value(decimal(n)) == digits_value(d) * 10 + digit_value(
            digit_char((n % 10) as int),
        ));
        assert(digits_value(d) == n / 10);
        assert(digits_value(decimal(n)) == n);
    } else {
        assert(decimal(n).drop_last() =~= Seq::<char>::empty());
        assert(digit_value(digit_char(n as int)) == n);
        assert(digits_value(Seq::<char>::empty()) == 0);
        assert(digits_value(decimal(n)) == n);
    }
}

/// A decimal text is read back as the number it was written from.
pub proof fn lemma_decimal_parses(n: nat)
    requires
        n <= usize::MAX,
    ensures
        parses_as_usize(decimal(n)),
        usize_value(decimal(n)) == n,
{
    lemma_decimal_digits(n);
}

proof fn lemma_digits_prefix_le(d: Seq<char>, k: int)
    requires
        all_digits(d),
        0 <= k <= d.len(),
    ensures
        digits_value(d.take(k)) <= digits_value(d),
    decreases d.len(),
{
    if k < d.len() {
        assert(is_digit(d[d.len() - 1]));
        lemma_digits_prefix_le(d.drop_last(), k);
        assert(d.drop_last().take(k) =~= d.take(k));
    } else {
        assert(d.take(k) =~= d);
    }
}

fn digit_to_char(d: usize) -> (c: char)
    requires
        d < 10,
    ensures
        c == digit_char(d as int),
        is_digit(c),
        digit_value(c) == d,
{
    let b: u8 = (d as u8) + 48u8;
    b as char
}

/// Canonical decimal text of `n`.
pub fn decimal_chars(n: usize) -> (r: Vec<char>)
    ensures
        r@ == decimal(n as nat),
    decreases n,
{
    if n < 10 {
        let mut v: Vec<char> = Vec::new();
        v.push(digit_to_char(n));
        proof {
            assert(v@ =~= seq![digit_char(n as int)]);
        }
        v
    } else {
        let mut v = decimal_chars(n / 10);
        v.push(digit_to_char(n % 10));
        v
    }
}

/// Reads the unsigned number that `s[from..]` denotes, as `str::parse::<usize>` does.
pub fn parse_usize_from(s: &Vec<char>, from: usize) -> (v: usize)
    requires
        from <= s.len(),
        parses_as_usize(s@.skip(from as int)),
    ensures
        v == usize_value(s@.skip(from as int)),
{
    let ghost t = s@.skip(from as int);
    let mut i = from;
    if s[i] == '+' {
        i = i + 1;
    }
    let ghost d = unsigned_digits(t);
    assert(d =~= s@.skip(i as int));
    let start = i;
    let mut acc: usize = 0;
    while i < s.len()
        invariant
            start <= i <= s.len(),
            d =~= s@.skip(start as int),
            all_digits(d),
            digits_value(d) <= usize::MAX,
            acc == digits_value(d.take(i - start)),
        decreases s.len() - i,
    {
        let c = s[i];
        assert(is_digit(d[i - start]));
        let ghost k = (i - start + 1) as int;
        assert(d.take(k).drop_last() =~= d.take(k - 1));
        proof {
            lemma_digits_prefix_le(d, k);
        }
        let dv = (c as u32 - 48u32) as usize;
        acc = acc * 10 + dv;
        i = i + 1;
    }
    assert(d.take(i - start) =~= d);
    acc
}

/// Splits `s` at every `sep` (`str::split`).
pub fn split_chars(s: &Vec<char>, sep: char) -> (r: Vec<Vec<char>>)
    ensures
        views(r@) == split_seq(s@, sep),
{
    let mut parts: Vec<Vec<char>> = Vec::new();
    let mut cur: Vec<char> = Vec::new();
    let mut i: usize = 0;
    while i < s.len()
        invariant
            i <= s.len(),
            split_seq(s@.take(i as int), sep) =~= views(parts@).push(cur@),
        decreases s.len() - i,
    {
        let c = s[i];
        assert(s@.take(i + 1).drop_last() =~= s@.take(i as int));
        let ghost pv = views(parts@);
        let ghost cv = cur@;
        if c == sep {
            parts.push(cur);
            cur = Vec::new();
            assert(views(parts@) =~= pv.push(cv));
        } else {
            cur.push(c);
            assert(pv.push(cv).update(pv.len() as int, cv.push(c)) =~= pv.push(cur@));
        }
        i = i + 1;
    }
    assert(s@.take(s.len() as int) =~= s@);
    parts.push(cur);
    parts
}

} // verus!

verus! {

/// `sep` does not occur in `s`.
pub open spec fn free_of(s: Seq<char>, sep: char) -> bool {
    forall|i: int| 0 <= i < s.len() ==> s[i] != sep
}

/// No part contains `sep`.
pub open spec fn parts_free_of(parts: Seq<Seq<char>>, sep: char) -> bool {
    forall|k: int| 0 <= k < parts.len() ==> free_of(#[trigger] parts[k], sep)
}

proof fn lemma_split_append_plain(x: Seq<char>, t: Seq<char>, sep: char)
    requires
        free_of(t, sep),
    ensures
        split_seq(x + t, sep) == split_seq(x, sep).update(
            split_seq(x, sep).len() - 1,
            split_seq(x, sep).last() + t,
        ),
    decreases t.len(),
{
    lemma_split_nonempty(x, sep);
    let r = split_seq(x, sep);
    if t.len() == 0 {
        assert(x + t =~= x);
        assert(r.last() + t =~= r.last());
        assert(r.update(r.len() - 1, r.last()) =~= r);
    } else {
        let t0 = t.drop_last();
        lemma_split_append_plain(x, t0, sep);
        assert((x + t).drop_last() =~= x + t0);
        assert((x + t).last() == t.last());
        let r0 = split_seq(x + t0, sep);
        assert(r0 =~= r.update(r.len() - 1, r.last() + t0));
        assert((r.last() + t0).push(t.last()) =~= r.last() + t);
        assert(r0.update(r0.len() - 1, r0.last().push(t.last())) =~= r.update(
            r.len() - 1,
            r.last() + t,
        ));
    }
}

/// Splitting a joined list of separator-free parts gives the parts back.
pub proof fn lemma_split_join(parts: Seq<Seq<char>>, sep: char)
    requires
        parts.len() >= 1,
        parts_free_of(parts, sep),
    ensures
        split_seq(join_seq(parts, sep), sep) == parts,
    decreases parts.len(),
{
    if parts.len() == 1 {
        assert(free_of(parts[0], sep));
        lemma_split_append_plain(Seq::<char>::empty(), parts[0], sep);
        assert(Seq::<char>::empty() + parts[0] =~= parts[0]);
        assert(split_seq(Seq::<char>::empty(), sep) =~= seq![Seq::<char>::empty()]);
        assert(Seq::<char>::empty() + parts[0] =~= parts[0]);
        assert(seq![Seq::<char>::empty()].update(0, Seq::<char>::empty() + parts[0]) =~= parts);
    } else {
        let init = parts.drop_last();
        assert(parts_free_of(init, sep)) by {
            assert forall|k: int| 0 <= k < init.len() implies free_of(#[trigger] init[k], sep) by {
                assert(init[k] == parts[k]);
            }
        }
        lemma_split_join(init, sep);
        let j = join_seq(init, sep).push(sep);
        assert(free_of(parts.last(), sep)) by {
            assert(parts.last() == parts[parts.len() - 1]);
        }
        lemma_split_append_plain(j, parts.last(), sep);
        assert(j.drop_last() =~= join_seq(init, sep));
        let sj = split_seq(j, sep);
        assert(sj =~= init.push(Seq::<char>::empty()));
        assert(Seq::<char>::empty() + parts.last() =~= parts.last());
        assert(sj.update(sj.len() - 1, sj.last() + parts.last()) =~= parts);
    }
}

proof fn lemma_join_extend_last(r: Seq<Seq<char>>, t: Seq<char>, sep: char)
    requires
        r.len() >= 1,
    ensures
        join_seq(r.update(r.len() - 1, r.last() + t), sep) == join_seq(r, sep) + t,
{
    let u = r.update(r.len() - 1, r.last() + t);
    if r.len() == 1 {
        assert(u[0] == r[0] + t);
    } else {
        assert(u.drop_last() =~= r.drop_last());
        assert(join_seq(r, sep).push(sep) + r.last() + t =~= join_seq(r, sep).push(sep) + (
        r.last() + t));
    }
}

/// Joining the parts of a split gives the original text back.
pub proof fn lemma_join_split(s: Seq<char>, sep: char)
    ensures
        join_seq(split_seq(s, sep), sep) == s,
    decreases s.len(),
{
    if s.len() == 0 {
        assert(join_seq(seq![Seq::<char>::empty()], sep) == Seq::<char>::empty());
    } else {
        let s0 = s.drop_last();
        lemma_join_split(s0, sep);
        lemma_split_nonempty(s0, sep);
        let r = split_seq(s0, sep);
        if s.last() == sep {
            let u = r.push(Seq::<char>::empty());
            assert(u.drop_last() =~= r);
            assert(join_seq(u, sep) =~= s0.push(sep) + Seq::<char>::empty());
            assert(s0.push(sep) + Seq::<char>::empty() =~= s);
        } else {
            lemma_join_extend_last(r, seq![s.last()], sep);
            assert(r.last().push(s.last()) =~= r.last() + seq![s.last()]);
            assert(s0 + seq![s.last()] =~= s);
        }
    }
}

/// Appends the characters of `src` to `dst`.
pub fn extend_chars(dst: &mut Vec<char>, src: &Vec<char>)
    ensures
        final(dst)@ == old(dst)@ + src@,
{
    let mut i: usize = 0;
    while i < src.len()
        invariant
            i <= src.len(),
            dst@ == old(dst)@ + src@.take(i as int),
        decreases src.len() - i,
    {
        dst.push(src[i]);
        assert(old(dst)@ + src@.take(i + 1) =~= (old(dst)@ + src@.take(i as int)).push(src@[i as int]));
        i = i + 1;
    }
    assert(src@.take(src.len() as int) =~= src@);
}

/// Joins `parts` with `sep` (`[&str]::join`).
pub fn join_chars(parts: &Vec<Vec<char>>, sep: char) -> (r: Vec<char>)
    ensures
        r@ == join_seq(views(parts@), sep),
{
    let mut r: Vec<char> = Vec::new();
    let mut i: usize = 0;
    while i < parts.len()
        invariant
            i <= parts.len(),
            r@ == join_seq(views(parts@).take(i as int), sep),
        decreases parts.len() - i,
    {
        let ghost before = r@;
        if i > 0 {
            r.push(sep);
        }
        extend_chars(&mut r, &parts[i]);
        proof {
            let t = views(parts@).take(i + 1);
            assert(t.drop_last() =~= views(parts@).take(i as int));
            assert(t.last() == parts@[i as int]@);
            if i == 0 {
                assert(r@ =~= parts@[0]@);
            }
        }
        i = i + 1;
    }
    assert(views(parts@).take(parts.len() as int) =~= views(parts@));
    r
}

} // verus!
