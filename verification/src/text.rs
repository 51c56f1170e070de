//! Small building blocks for text: characters, decimal numbers.

use vstd::prelude::*;

verus! {

/// `String::push` from std: appends one character at the end.
#[verifier::external_body]
pub(crate) fn push_char(s: &mut String, c: char)
    ensures
        final(s)@ == old(s)@.push(c),
{
    s.push(c);
}

/// The character of a decimal digit.
pub open spec fn digit_char(d: int) -> char {
    if d == 0 {
        '0'
    } else if d == 1 {
        '1'
    } else if d == 2 {
        '2'
    } else if d == 3 {
        '3'
    } else if d == 4 {
        '4'
    } else if d == 5 {
        '5'
    } else if d == 6 {
        '6'
    } else if d == 7 {
        '7'
    } else if d == 8 {
        '8'
    } else {
        '9'
    }
}

/// The decimal notation of a natural number, without leading zeros.
pub open spec fn decimal(n: nat) -> Seq<char>
    decreases n,
{
    if n < 10 {
        seq![digit_char(n as int)]
    } else {
        decimal(n / 10).push(digit_char((n % 10) as int))
    }
}

/// The character of the decimal digit `d`.
pub fn digit_of(d: u64) -> (c: char)
    requires
        d < 10,
    ensures
        c == digit_char(d as int),
{
    match d {
        0 => '0',
        1 => '1',
        2 => '2',
        3 => '3',
        4 => '4',
        5 => '5',
        6 => '6',
        7 => '7',
        8 => '8',
        _ => '9',
    }
}

/// Appends the decimal notation of `n`.
pub fn push_decimal(s: &mut String, n: u64)
    ensures
        final(s)@ == old(s)@ + decimal(n as nat),
    decreases n,
{
    if n >= 10 {
        push_decimal(s, n / 10);
    }
    push_char(s, digit_of(n % 10));
    proof {
        if n >= 10 {
            assert(decimal(n as nat) == decimal((n / 10) as nat).push(digit_char((n % 10) as int)));
        } else {
            assert(decimal(n as nat) == seq![digit_char(n as int)]);
        }
        assert(s@ =~= old(s)@ + decimal(n as nat));
    }
}

} // verus!

verus! {

/// The characters of a string slice, in order.
pub fn chars_of(s: &str) -> (v: Vec<char>)
    ensures
        v@ == s@,
{
    let mut v: Vec<char> = Vec::new();
    for c in it: s.chars()
        invariant
            it.seq() == s@,
            v@ == s@.take(it.index()),
    {
        v.push(c);
        proof {
            assert(v@ =~= s@.take(it.index() + 1));
        }
    }
    proof {
        assert(v@ =~= s@);
    }
    v
}

/// A new string holding `cs[from..to]`.
pub fn string_of(cs: &Vec<char>, from: usize, to: usize) -> (s: String)
    requires
        from <= to <= cs@.len(),
    ensures
        s@ == cs@.subrange(from as int, to as int),
{
    let mut s = String::new();
    let mut i = from;
    while i < to
        invariant
            from <= i <= to <= cs@.len(),
            s@ == cs@.subrange(from as int, i as int),
        decreases to - i,
    {
        push_char(&mut s, cs[i]);
        i = i + 1;
        proof {
            assert(s@ =~= cs@.subrange(from as int, i as int));
        }
    }
    s
}

/// The pieces of `s` between the occurrences of `sep`, like `str::split`:
/// there is always at least one piece, and `k` separators make `k + 1` pieces.
pub open spec fn split_on(s: Seq<char>, sep: char) -> Seq<Seq<char>>
    decreases s.len(),
{
    if s.len() == 0 {
        seq![Seq::empty()]
    } else {
        let init = split_on(s.drop_last(), sep);
        if s.last() == sep {
            init.push(Seq::empty())
        } else {
            init.update(init.len() - 1, init.last().push(s.last()))
        }
    }
}

/// Splitting always gives at least one piece.
pub proof fn lemma_split_on_nonempty(s: Seq<char>, sep: char)
    ensures
        split_on(s, sep).len() >= 1,
    decreases s.len(),
{
    if s.len() > 0 {
        lemma_split_on_nonempty(s.drop_last(), sep);
    }
}

/// Text without `sep` is one piece.
pub proof fn lemma_split_on_whole(s: Seq<char>, sep: char)
    requires
        !s.contains(sep),
    ensures
        split_on(s, sep) == seq![s],
    decreases s.len(),
{
    if s.len() > 0 {
        let init = s.drop_last();
        assert(!init.contains(sep)) by {
            if init.contains(sep) {
                let k = choose|k: int| 0 <= k < init.len() && init[k] == sep;
                assert(s[k] == sep);
            }
        }
        lemma_split_on_whole(init, sep);
        assert(s.last() != sep) by {
            assert(s[s.len() - 1] == s.last());
        }
        assert(init.push(s.last()) =~= s);
        assert(seq![init].update(0, init.push(s.last())) =~= seq![s]);
    } else {
        assert(s =~= Seq::<char>::empty());
    }
}

/// Splitting text that follows a separator: the pieces before it, then the pieces after.
pub proof fn lemma_split_on_after_sep(a: Seq<char>, b: Seq<char>, sep: char)
    requires
        a.len() > 0,
        a.last() == sep,
    ensures
        split_on(a + b, sep) == split_on(a, sep).drop_last() + split_on(b, sep),
    decreases b.len(),
{
    lemma_split_on_nonempty(a.drop_last(), sep);
    if b.len() == 0 {
        assert(a + b =~= a);
        assert(split_on(a, sep).drop_last() + split_on(b, sep) =~= split_on(a, sep));
    } else {
        let ab = a + b;
        assert(ab.drop_last() =~= a + b.drop_last());
        assert(ab.last() == b.last());
        lemma_split_on_after_sep(a, b.drop_last(), sep);
        lemma_split_on_nonempty(b.drop_last(), sep);
        let pre = split_on(a, sep).drop_last();
        let tail = split_on(b.drop_last(), sep);
        if b.last() == sep {
            assert((pre + tail).push(Seq::empty()) =~= pre + tail.push(Seq::empty()));
        } else {
            assert((pre + tail).update((pre + tail).len() - 1, (pre + tail).last().push(b.last())) =~= pre
                + tail.update(tail.len() - 1, tail.last().push(b.last())));
        }
    }
}

/// No piece holds the separator, and every character of a piece comes from the text.
pub proof fn lemma_split_on_pieces(s: Seq<char>, sep: char)
    ensures
        forall|k: int, i: int|
            0 <= k < split_on(s, sep).len() && 0 <= i < split_on(s, sep)[k].len() ==> #[trigger] split_on(
                s,
                sep,
            )[k][i] != sep && s.contains(split_on(s, sep)[k][i]),
    decreases s.len(),
{
    if s.len() > 0 {
        let init = s.drop_last();
        lemma_split_on_pieces(init, sep);
        lemma_split_on_nonempty(init, sep);
        let p = split_on(init, sep);
        let q = split_on(s, sep);
        assert forall|k: int, i: int| 0 <= k < q.len() && 0 <= i < q[k].len() implies #[trigger] q[k][i]
            != sep && s.contains(q[k][i]) by {
            if k < p.len() && i < p[k].len() {
                assert(q[k][i] == p[k][i]);
                let j = choose|j: int| 0 <= j < init.len() && init[j] == p[k][i];
                assert(s[j] == init[j]);
            } else {
                assert(q[k][i] == s.last());
                assert(s[s.len() - 1] == s.last());
            }
        }
    }
}

/// Splits `cs[from..to]` at `sep`; each piece comes back as its bounds in `cs`.
pub fn split_ranges(cs: &Vec<char>, from: usize, to: usize, sep: char) -> (rs: Vec<(usize, usize)>)
    requires
        from <= to <= cs@.len(),
    ensures
        rs@.len() == split_on(cs@.subrange(from as int, to as int), sep).len(),
        forall|k: int|
            0 <= k < rs@.len() ==> from <= (#[trigger] rs@[k]).0 <= rs@[k].1 <= to && cs@.subrange(
                rs@[k].0 as int,
                rs@[k].1 as int,
            ) == split_on(cs@.subrange(from as int, to as int), sep)[k],
{
    let mut rs: Vec<(usize, usize)> = Vec::new();
    let mut start = from;
    let mut i = from;
    proof {
        assert(cs@.subrange(from as int, from as int) =~= Seq::<char>::empty());
    }
    while i < to
        invariant
            from <= start <= i <= to <= cs@.len(),
            rs@.len() + 1 == split_on(cs@.subrange(from as int, i as int), sep).len(),
            forall|k: int|
                0 <= k < rs@.len() ==> from <= (#[trigger] rs@[k]).0 <= rs@[k].1 <= i
                    && cs@.subrange(rs@[k].0 as int, rs@[k].1 as int) == split_on(
                    cs@.subrange(from as int, i as int),
                    sep,
                )[k],
            cs@.subrange(start as int, i as int) == split_on(cs@.subrange(from as int, i as int), sep).last(),
        decreases to - i,
    {
        let ghost prev = split_on(cs@.subrange(from as int, i as int), sep);
        let ghost t = cs@.subrange(from as int, i + 1);
        proof {
            assert(t.drop_last() =~= cs@.subrange(from as int, i as int));
            assert(t.last() == cs@[i as int]);
            lemma_split_on_nonempty(cs@.subrange(from as int, i as int), sep);
        }
        if cs[i] == sep {
            rs.push((start, i));
            start = i + 1;
            proof {
                assert(cs@.subrange(start as int, i + 1) =~= Seq::<char>::empty());
            }
        } else {
            proof {
                assert(cs@.subrange(start as int, i + 1) =~= cs@.subrange(start as int, i as int).push(cs@[i as int]));
            }
        }
        i = i + 1;
    }
    rs.push((start, i));
    rs
}

/// Whether `i` is the position of the first `c` in `s`.
pub open spec fn first_at(s: Seq<char>, c: char, i: int) -> bool {
    &&& 0 <= i < s.len()
    &&& s[i] == c
    &&& forall|j: int| 0 <= j < i ==> s[j] != c
}

/// The position of the first `c` in `s`, or the length of `s` without one.
pub open spec fn first_index(s: Seq<char>, c: char) -> int {
    if exists|i: int| first_at(s, c, i) {
        choose|i: int| first_at(s, c, i)
    } else {
        s.len() as int
    }
}

/// The text before the first `c`: the first piece `str::split` gives.
pub open spec fn before_first(s: Seq<char>, c: char) -> Seq<char> {
    s.take(first_index(s, c))
}

/// `str::split_once`: the text around the first `c`, if there is one.
pub open spec fn split_once(s: Seq<char>, c: char) -> Option<(Seq<char>, Seq<char>)> {
    if s.contains(c) {
        Some((s.take(first_index(s, c)), s.skip(first_index(s, c) + 1)))
    } else {
        None
    }
}

/// The first position of `c`, or the length when `c` is absent.
pub proof fn lemma_first_index(s: Seq<char>, c: char)
    ensures
        0 <= first_index(s, c) <= s.len(),
        s.contains(c) <==> first_index(s, c) < s.len(),
        s.contains(c) ==> first_at(s, c, first_index(s, c)),
        forall|j: int| 0 <= j < first_index(s, c) ==> s[j] != c,
{
    if s.contains(c) {
        let k = choose|k: int| 0 <= k < s.len() && s[k] == c;
        let i = first_least(s, c, k);
        assert(first_at(s, c, i));
    } else {
        assert forall|i: int| !first_at(s, c, i) by {
            if first_at(s, c, i) {
                assert(s.contains(c));
            }
        }
    }
}

proof fn first_least(s: Seq<char>, c: char, k: int) -> (i: int)
    requires
        0 <= k < s.len(),
        s[k] == c,
    ensures
        first_at(s, c, i),
    decreases k,
{
    if exists|j: int| 0 <= j < k && s[j] == c {
        let j = choose|j: int| 0 <= j < k && s[j] == c;
        first_least(s, c, j)
    } else {
        k
    }
}

/// The position of the first `c` in `cs[from..to]`, counted from `from`,
/// or `to - from` without one.
pub fn find_char(cs: &Vec<char>, from: usize, to: usize, c: char) -> (i: usize)
    requires
        from <= to <= cs@.len(),
    ensures
        i == first_index(cs@.subrange(from as int, to as int), c),
{
    let ghost s = cs@.subrange(from as int, to as int);
    let mut i: usize = 0;
    while from + i < to
        invariant
            from <= to <= cs@.len(),
            s == cs@.subrange(from as int, to as int),
            0 <= i <= to - from,
            forall|j: int| 0 <= j < i ==> s[j] != c,
        decreases to - from - i,
    {
        if cs[from + i] == c {
            proof {
                assert(first_at(s, c, i as int));
                lemma_first_index(s, c);
                assert(s.contains(c));
                let f = first_index(s, c);
                assert(f == i) by {
                    if f < i {
                        assert(s[f] != c);
                    } else if f > i {
                        assert(s[i as int] == c);
                    }
                }
            }
            return i;
        }
        i = i + 1;
    }
    proof {
        lemma_first_index(s, c);
        if s.contains(c) {
            let f = first_index(s, c);
            assert(s[f] == c);
        }
    }
    i
}

/// The value of a character that is a decimal digit.
pub open spec fn digit_value(c: char) -> int {
    (c as int) - ('0' as int)
}

/// Whether a character is one of `0`..`9`.
pub open spec fn is_digit(c: char) -> bool {
    '0' <= c && c <= '9'
}

/// The number that a string of decimal digits stands for.
pub open spec fn digits_value(d: Seq<char>) -> nat
    decreases d.len(),
{
    if d.len() == 0 {
        0
    } else {
        (digits_value(d.drop_last()) * 10 + digit_value(d.last())) as nat
    }
}

/// `u64::from_str`: an optional `+`, then one or more decimal digits whose
/// value fits in a `u64`. Anything else (a sign `-`, spaces, nothing) fails.
pub open spec fn parse_u64(s: Seq<char>) -> Option<u64> {
    parse_digits(unsigned_part(s))
}

/// The text after an optional leading `+`.
pub open spec fn unsigned_part(s: Seq<char>) -> Seq<char> {
    if s.len() > 0 && s[0] == '+' {
        s.drop_first()
    } else {
        s
    }
}

/// One or more decimal digits whose value fits in a `u64`.
pub open spec fn parse_digits(d: Seq<char>) -> Option<u64> {
    if d.len() > 0 && (forall|i: int| 0 <= i < d.len() ==> is_digit(#[trigger] d[i])) && digits_value(d)
        <= u64::MAX {
        Some(digits_value(d) as u64)
    } else {
        None
    }
}

/// A number written in decimal reads back as itself.
pub proof fn lemma_decimal_reads_back(n: u64)
    ensures
        parse_u64(decimal(n as nat)) == Some(n),
{
    lemma_decimal_digits(n as nat);
    let d = decimal(n as nat);
    assert(unsigned_part(d) == d) by {
        assert(is_digit(d[0]));
    }
}

/// The characters of `decimal(n)` are digits worth `n`.
pub proof fn lemma_decimal_digits(n: nat)
    ensures
        decimal(n).len() > 0,
        forall|i: int| 0 <= i < decimal(n).len() ==> is_digit(#[trigger] decimal(n)[i]),
        digits_value(decimal(n)) == n,
    decreases n,
{
    if n < 10 {
        let d = decimal(n);
        assert(d.drop_last() =~= Seq::<char>::empty());
        assert(d.last() == d[0]);
        assert(is_digit(d[0]) && digit_value(d[0]) == n);
        assert(digits_value(d) == digits_value(d.drop_last()) * 10 + digit_value(d.last()));
    } else {
        lemma_decimal_digits(n / 10);
        let d = decimal(n);
        let c = digit_char((n % 10) as int);
        assert(d.drop_last() =~= decimal(n / 10));
        assert(is_digit(c) && digit_value(c) == n % 10);
        assert forall|i: int| 0 <= i < d.len() implies is_digit(#[trigger] d[i]) by {
            if i < d.len() - 1 {
                assert(d[i] == decimal(n / 10)[i]);
            }
        }
        assert(d.last() == c);
        assert(digits_value(d) == digits_value(d.drop_last()) * 10 + digit_value(d.last()));
        assert(n == (n / 10) * 10 + n % 10);
    }
}

proof fn lemma_digits_value_grows(d: Seq<char>, n: int)
    requires
        0 <= n <= d.len(),
        forall|i: int| 0 <= i < d.len() ==> is_digit(#[trigger] d[i]),
    ensures
        digits_value(d.take(n)) <= digits_value(d),
    decreases d.len() - n,
{
    if n < d.len() {
        lemma_digits_value_grows(d, n + 1);
        assert(d.take(n + 1).drop_last() =~= d.take(n));
        assert(d.take(n + 1).last() == d[n]);
    } else {
        assert(d.take(n) =~= d);
    }
}

/// Parses `cs[from..to]` as `u64::from_str` does.
pub fn parse_u64_chars(cs: &Vec<char>, from: usize, to: usize) -> (r: Option<u64>)
    requires
        from <= to <= cs@.len(),
    ensures
        r == parse_u64(cs@.subrange(from as int, to as int)),
{
    let ghost s = cs@.subrange(from as int, to as int);
    let mut start = from;
    if from < to && cs[from] == '+' {
        start = from + 1;
    }
    let ghost d = cs@.subrange(start as int, to as int);
    proof {
        if from < to && cs@[from as int] == '+' {
            assert(d =~= s.drop_first());
        } else {
            assert(d =~= s);
        }
    }
    if start == to {
        return None;
    }
    let mut v: u64 = 0;
    let mut i = start;
    while i < to
        invariant
            from <= start < to <= cs@.len(),
            start <= i <= to,
            d == cs@.subrange(start as int, to as int),
            s == cs@.subrange(from as int, to as int),
            parse_u64(s) == parse_digits(d),
            forall|k: int| 0 <= k < i - start ==> is_digit(#[trigger] d[k]),
            v == digits_value(d.take(i - start)),
        decreases to - i,
    {
        let c = cs[i];
        if !('0' <= c && c <= '9') {
            proof {
                assert(!is_digit(d[i - start]));
            }
            return None;
        }
        let ghost k = i - start;
        proof {
            assert(d.take(k + 1).drop_last() =~= d.take(k));
            assert(d.take(k + 1).last() == c);
        }
        let dv = (c as u32 - '0' as u32) as u64;
        let next = match v.checked_mul(10) {
            Some(m) => m.checked_add(dv),
            None => None,
        };
        match next {
            Some(n) => {
                v = n;
            },
            None => {
                proof {
                    assert(digits_value(d.take(k + 1)) > u64::MAX);
                    if forall|j: int| 0 <= j < d.len() ==> is_digit(#[trigger] d[j]) {
                        lemma_digits_value_grows(d, k + 1);
                    }
                }
                return None;
            },
        }
        i = i + 1;
    }
    proof {
        assert(d.take(i - start) =~= d);
    }
    Some(v)
}

/// Lexicographic order of strings by code point, which is the order `String`
/// has (UTF-8 keeps the order of code points).
pub open spec fn lex_lt(a: Seq<char>, b: Seq<char>) -> bool
    decreases a.len(),
{
    if a.len() == 0 {
        b.len() > 0
    } else if b.len() == 0 {
        false
    } else if a[0] != b[0] {
        (a[0] as int) < (b[0] as int)
    } else {
        lex_lt(a.drop_first(), b.drop_first())
    }
}

/// No text comes before itself.
pub proof fn lemma_lex_irreflexive(a: Seq<char>)
    ensures
        !lex_lt(a, a),
    decreases a.len(),
{
    if a.len() > 0 {
        lemma_lex_irreflexive(a.drop_first());
    }
}

/// The order of texts is transitive.
pub proof fn lemma_lex_transitive(a: Seq<char>, b: Seq<char>, c: Seq<char>)
    requires
        lex_lt(a, b),
        lex_lt(b, c),
    ensures
        lex_lt(a, c),
    decreases a.len(),
{
    if a.len() > 0 && b.len() > 0 && c.len() > 0 {
        if a[0] == b[0] && b[0] == c[0] {
            lemma_lex_transitive(a.drop_first(), b.drop_first(), c.drop_first());
        }
    }
}

/// Of two different texts, one comes first.
pub proof fn lemma_lex_total(a: Seq<char>, b: Seq<char>)
    ensures
        a == b || lex_lt(a, b) || lex_lt(b, a),
    decreases a.len(),
{
    if a.len() > 0 && b.len() > 0 {
        if a[0] == b[0] {
            lemma_lex_total(a.drop_first(), b.drop_first());
            if a.drop_first() == b.drop_first() {
                assert(a =~= seq![a[0]] + a.drop_first());
                assert(b =~= seq![b[0]] + b.drop_first());
            }
        }
    } else if a.len() == 0 && b.len() == 0 {
        assert(a =~= b);
    }
}

/// Two texts do not each come before the other.
pub proof fn lemma_lex_asymmetric(a: Seq<char>, b: Seq<char>)
    requires
        lex_lt(a, b),
    ensures
        !lex_lt(b, a),
{
    if lex_lt(b, a) {
        lemma_lex_transitive(a, b, a);
        lemma_lex_irreflexive(a);
    }
}

/// Compares two strings in the order of `String`.
pub fn lex_less(a: &str, b: &str) -> (r: bool)
    ensures
        r == lex_lt(a@, b@),
{
    let x = chars_of(a);
    let y = chars_of(b);
    let mut i: usize = 0;
    proof {
        assert(x@.skip(0) =~= x@);
        assert(y@.skip(0) =~= y@);
        assert(x@.take(0) =~= y@.take(0));
    }
    while i < x.len() && i < y.len()
        invariant
            x@ == a@,
            y@ == b@,
            i <= x@.len(),
            i <= y@.len(),
            x@.take(i as int) == y@.take(i as int),
            lex_lt(a@, b@) == lex_lt(x@.skip(i as int), y@.skip(i as int)),
        decreases x@.len() - i,
    {
        if x[i] != y[i] {
            proof {
                assert(x@.skip(i as int)[0] == x@[i as int]);
                assert(y@.skip(i as int)[0] == y@[i as int]);
            }
            return x[i] < y[i];
        }
        proof {
            assert(x@.skip(i as int).drop_first() =~= x@.skip(i + 1));
            assert(y@.skip(i as int).drop_first() =~= y@.skip(i + 1));
            assert(x@.take(i + 1) =~= x@.take(i as int).push(x@[i as int]));
            assert(y@.take(i + 1) =~= y@.take(i as int).push(y@[i as int]));
        }
        i = i + 1;
    }
    i < y.len()
}

} // verus!

verus! {

/// `digits` with zeros in front up to `width` characters.
pub open spec fn zero_padded(digits: Seq<char>, width: int) -> Seq<char> {
    Seq::new(if width > digits.len() { (width - digits.len()) as nat } else { 0 }, |i: int| '0') + digits
}

/// An integer as `{:0width}` writes it: the sign first, then zeros up to the width.
pub open spec fn signed_padded(v: int, width: int) -> Seq<char> {
    if v < 0 {
        seq!['-'] + zero_padded(decimal((-v) as nat), width - 1)
    } else {
        zero_padded(decimal(v as nat), width)
    }
}

/// How many digits `n` has in decimal.
pub fn digit_count(n: u64) -> (k: usize)
    ensures
        k == decimal(n as nat).len(),
        1 <= k <= 20,
    decreases n,
{
    if n >= 10 {
        let k = digit_count(n / 10);
        proof {
            assert(decimal(n as nat).len() == decimal((n / 10) as nat).len() + 1);
            assert(n / 10 < 10 ==> k == 1);
        }
        assert(k < 20) by {
            if k >= 20 {
                lemma_decimal_len_bound((n / 10) as nat);
            }
        }
        k + 1
    } else {
        1
    }
}

proof fn lemma_decimal_len_bound(n: nat)
    requires
        n <= u64::MAX / 10,
    ensures
        decimal(n).len() <= 19,
    decreases n,
{
    assert(pow10(19) == 10000000000000000000) by {
        reveal_with_fuel(pow10, 20);
    }
    lemma_decimal_len_below(n, 19);
}

proof fn lemma_decimal_len_below(n: nat, k: nat)
    requires
        k >= 1,
        n < pow10(k),
    ensures
        decimal(n).len() <= k,
    decreases k,
{
    if n >= 10 {
        if k == 1 {
            assert(pow10(1) == 10 * pow10(0));
        } else {
            assert(pow10(k) == 10 * pow10((k - 1) as nat));
            assert(n / 10 < pow10((k - 1) as nat));
            lemma_decimal_len_below(n / 10, (k - 1) as nat);
        }
    }
}

spec fn pow10(k: nat) -> nat
    decreases k,
{
    if k == 0 {
        1
    } else {
        10 * pow10((k - 1) as nat)
    }
}

/// Appends `n` in decimal, with zeros in front up to `width` characters.
pub fn push_zero_padded(s: &mut String, n: u64, width: usize)
    ensures
        final(s)@ == old(s)@ + zero_padded(decimal(n as nat), width as int),
{
    let k = digit_count(n);
    let mut i = k;
    while i < width
        invariant
            k <= i,
            i <= width || i == k,
            s@ == old(s)@ + Seq::new((i - k) as nat, |j: int| '0'),
        decreases width - i,
    {
        push_char(s, '0');
        proof {
            assert(s@ =~= old(s)@ + Seq::new((i + 1 - k) as nat, |j: int| '0'));
        }
        i = i + 1;
    }
    push_decimal(s, n);
    proof {
        assert(s@ =~= old(s)@ + zero_padded(decimal(n as nat), width as int));
    }
}

/// Appends `v` as `{:0width}` formats it.
pub fn push_signed_padded(s: &mut String, v: i64, width: usize)
    requires
        width >= 1,
    ensures
        final(s)@ == old(s)@ + signed_padded(v as int, width as int),
{
    if v < 0 {
        push_char(s, '-');
        let a = (-(v + 1)) as u64 + 1;
        push_zero_padded(s, a, width - 1);
        proof {
            assert(s@ =~= old(s)@ + signed_padded(v as int, width as int));
        }
    } else {
        push_zero_padded(s, v as u64, width);
    }
}

} // verus!

verus! {

/// Whether `cs[from..to]` is exactly `t`.
pub fn range_is(cs: &Vec<char>, from: usize, to: usize, t: &Vec<char>) -> (r: bool)
    requires
        from <= to <= cs@.len(),
    ensures
        r == (cs@.subrange(from as int, to as int) == t@),
{
    if to - from != t.len() {
        return false;
    }
    let mut i: usize = 0;
    while i < t.len()
        invariant
            from <= to <= cs@.len(),
            to - from == t@.len(),
            i <= t@.len(),
            forall|j: int| 0 <= j < i ==> cs@[from + j] == t@[j],
        decreases t@.len() - i,
    {
        if cs[from + i] != t[i] {
            proof {
                assert(cs@.subrange(from as int, to as int)[i as int] != t@[i as int]);
            }
            return false;
        }
        i = i + 1;
    }
    proof {
        assert(cs@.subrange(from as int, to as int) =~= t@);
    }
    true
}

/// Whether two strings are equal.
pub fn str_is(s: &str, t: &str) -> (r: bool)
    ensures
        r == (s@ == t@),
{
    let cs = chars_of(s);
    let ts = chars_of(t);
    proof {
        assert(cs@.subrange(0, cs@.len() as int) =~= cs@);
    }
    range_is(&cs, 0, cs.len(), &ts)
}

/// `char::is_whitespace`: the characters with the Unicode `White_Space` property.
pub open spec fn is_space(c: char) -> bool {
    ('\u{9}' <= c && c <= '\u{d}') || c == ' ' || c == '\u{85}' || c == '\u{a0}' || c == '\u{1680}'
        || ('\u{2000}' <= c && c <= '\u{200a}') || c == '\u{2028}' || c == '\u{2029}' || c
        == '\u{202f}' || c == '\u{205f}' || c == '\u{3000}'
}

/// `char::is_whitespace`.
pub fn is_space_char(c: char) -> (r: bool)
    ensures
        r == is_space(c),
{
    ('\u{9}' <= c && c <= '\u{d}') || c == ' ' || c == '\u{85}' || c == '\u{a0}' || c == '\u{1680}'
        || ('\u{2000}' <= c && c <= '\u{200a}') || c == '\u{2028}' || c == '\u{2029}' || c
        == '\u{202f}' || c == '\u{205f}' || c == '\u{3000}'
}

/// How many characters at the end of `s` are white space.
pub open spec fn trailing_space(s: Seq<char>) -> nat
    decreases s.len(),
{
    if s.len() > 0 && is_space(s.last()) {
        trailing_space(s.drop_last()) + 1
    } else {
        0
    }
}

/// How many characters at the start of `s` are white space.
pub open spec fn leading_space(s: Seq<char>) -> nat
    decreases s.len(),
{
    if s.len() > 0 && is_space(s[0]) {
        leading_space(s.drop_first()) + 1
    } else {
        0
    }
}

/// `str::trim_end`.
pub open spec fn trim_end(s: Seq<char>) -> Seq<char> {
    s.take(s.len() - trailing_space(s))
}

/// `str::trim`.
pub open spec fn trim(s: Seq<char>) -> Seq<char> {
    trim_end(s.skip(leading_space(s) as int))
}

/// The trailing white space lies within the text.
pub proof fn lemma_trailing_space(s: Seq<char>)
    ensures
        trailing_space(s) <= s.len(),
    decreases s.len(),
{
    if s.len() > 0 && is_space(s.last()) {
        lemma_trailing_space(s.drop_last());
    }
}

/// The leading white space lies within the text.
pub proof fn lemma_leading_space(s: Seq<char>)
    ensures
        leading_space(s) <= s.len(),
    decreases s.len(),
{
    if s.len() > 0 && is_space(s[0]) {
        lemma_leading_space(s.drop_first());
    }
}

/// The end of `cs[from..to]` without its trailing white space.
pub fn trim_end_at(cs: &Vec<char>, from: usize, to: usize) -> (e: usize)
    requires
        from <= to <= cs@.len(),
    ensures
        from <= e <= to,
        cs@.subrange(from as int, e as int) == trim_end(cs@.subrange(from as int, to as int)),
{
    let ghost s = cs@.subrange(from as int, to as int);
    let mut e = to;
    proof {
        assert(s.take(e - from) =~= s);
    }
    while e > from && is_space_char(cs[e - 1])
        invariant
            from <= e <= to <= cs@.len(),
            s == cs@.subrange(from as int, to as int),
            trailing_space(s) == trailing_space(s.take(e - from)) + (to - e),
        decreases e,
    {
        proof {
            let t = s.take(e - from);
            assert(t.last() == cs@[e - 1]);
            assert(t.drop_last() =~= s.take(e - 1 - from));
        }
        e = e - 1;
    }
    proof {
        let t = s.take(e - from);
        if e > from {
            assert(t.last() == cs@[e - 1]);
        }
        assert(trailing_space(t) == 0);
        lemma_trailing_space(s);
        assert(cs@.subrange(from as int, e as int) =~= s.take(s.len() - trailing_space(s)));
    }
    e
}

/// The start of `cs[from..to]` after its leading white space.
pub fn trim_start_at(cs: &Vec<char>, from: usize, to: usize) -> (b: usize)
    requires
        from <= to <= cs@.len(),
    ensures
        from <= b <= to,
        b - from == leading_space(cs@.subrange(from as int, to as int)),
{
    let ghost s = cs@.subrange(from as int, to as int);
    let mut b = from;
    proof {
        assert(s.skip(0) =~= s);
    }
    while b < to && is_space_char(cs[b])
        invariant
            from <= b <= to <= cs@.len(),
            s == cs@.subrange(from as int, to as int),
            leading_space(s) == leading_space(s.skip(b - from)) + (b - from),
        decreases to - b,
    {
        proof {
            let t = s.skip(b - from);
            assert(t[0] == cs@[b as int]);
            assert(t.drop_first() =~= s.skip(b + 1 - from));
        }
        b = b + 1;
    }
    proof {
        let t = s.skip(b - from);
        if b < to {
            assert(t[0] == cs@[b as int]);
        }
        assert(leading_space(t) == 0);
    }
    b
}

/// The bounds of `trim(cs[from..to])` in `cs`.
pub fn trim_at(cs: &Vec<char>, from: usize, to: usize) -> (r: (usize, usize))
    requires
        from <= to <= cs@.len(),
    ensures
        from <= r.0 <= r.1 <= to,
        cs@.subrange(r.0 as int, r.1 as int) == trim(cs@.subrange(from as int, to as int)),
{
    let b = trim_start_at(cs, from, to);
    let e = trim_end_at(cs, b, to);
    proof {
        let s = cs@.subrange(from as int, to as int);
        lemma_leading_space(s);
        assert(s.skip(leading_space(s) as int) =~= cs@.subrange(b as int, to as int));
    }
    (b, e)
}

/// The words of `s` as `str::split_whitespace` gives them.
pub open spec fn words(s: Seq<char>) -> Seq<Seq<char>>
    decreases s.len(),
{
    if s.len() == 0 {
        Seq::empty()
    } else {
        let w = words(s.drop_last());
        let c = s.last();
        if is_space(c) {
            w
        } else if s.len() == 1 || is_space(s[s.len() - 2]) {
            w.push(seq![c])
        } else {
            w.update(w.len() - 1, w.last().push(c))
        }
    }
}

/// The bounds in `cs` of the words of `cs[0..to]`.
pub fn word_ranges(cs: &Vec<char>, to: usize) -> (rs: Vec<(usize, usize)>)
    requires
        to <= cs@.len(),
    ensures
        rs@.len() == words(cs@.take(to as int)).len(),
        forall|k: int|
            0 <= k < rs@.len() ==> (#[trigger] rs@[k]).0 <= rs@[k].1 <= to && cs@.subrange(
                rs@[k].0 as int,
                rs@[k].1 as int,
            ) == words(cs@.take(to as int))[k],
{
    let mut rs: Vec<(usize, usize)> = Vec::new();
    let mut start: usize = 0;
    let mut inside = false;
    let mut i: usize = 0;
    while i < to
        invariant
            i <= to <= cs@.len(),
            start <= i,
            inside ==> i > 0 && !is_space(cs@[i - 1]) && start < i,
            !inside ==> (i == 0 || is_space(cs@[i - 1])),
            inside ==> rs@.len() + 1 == words(cs@.take(i as int)).len() && cs@.subrange(
                start as int,
                i as int,
            ) == words(cs@.take(i as int)).last(),
            !inside ==> rs@.len() == words(cs@.take(i as int)).len(),
            forall|k: int|
                0 <= k < rs@.len() ==> (#[trigger] rs@[k]).0 <= rs@[k].1 <= i && cs@.subrange(
                    rs@[k].0 as int,
                    rs@[k].1 as int,
                ) == words(cs@.take(i as int))[k],
        decreases to - i,
    {
        let ghost t = cs@.take(i + 1);
        proof {
            assert(t.drop_last() =~= cs@.take(i as int));
            assert(t.last() == cs@[i as int]);
            if i > 0 {
                assert(t[t.len() - 2] == cs@[i - 1]);
            }
        }
        if is_space_char(cs[i]) {
            if inside {
                rs.push((start, i));
                inside = false;
            }
        } else if !inside {
            start = i;
            inside = true;
            proof {
                assert(cs@.subrange(start as int, i + 1) =~= seq![cs@[i as int]]);
            }
        } else {
            proof {
                assert(cs@.subrange(start as int, i + 1) =~= cs@.subrange(start as int, i as int).push(
                    cs@[i as int],
                ));
            }
        }
        i = i + 1;
    }
    if inside {
        rs.push((start, i));
    }
    rs
}

/// ASCII letters folded to lower case, everything else kept.
pub open spec fn ascii_lower(c: char) -> char {
    if 'A' <= c && c <= 'Z' {
        (((c as u8) + 32) as u8) as char
    } else {
        c
    }
}

/// `str::eq_ignore_ascii_case` against a text already in lower case.
pub open spec fn same_ignoring_ascii_case(s: Seq<char>, lower: Seq<char>) -> bool {
    s.len() == lower.len() && forall|i: int| 0 <= i < s.len() ==> ascii_lower(#[trigger] s[i]) == lower[i]
}

/// `char::to_ascii_lowercase`.
pub fn lower_of(c: char) -> (r: char)
    ensures
        r == ascii_lower(c),
{
    if 'A' <= c && c <= 'Z' {
        ((c as u8) + 32) as char
    } else {
        c
    }
}

/// Whether `cs[from..to]` equals the lower-case text `lower`, ignoring ASCII case.
pub fn range_is_ignoring_case(cs: &Vec<char>, from: usize, to: usize, lower: &Vec<char>) -> (r: bool)
    requires
        from <= to <= cs@.len(),
    ensures
        r == same_ignoring_ascii_case(cs@.subrange(from as int, to as int), lower@),
{
    if to - from != lower.len() {
        return false;
    }
    let mut i: usize = 0;
    while i < lower.len()
        invariant
            from <= to <= cs@.len(),
            to - from == lower@.len(),
            i <= lower@.len(),
            forall|j: int| 0 <= j < i ==> ascii_lower(cs@[from + j]) == lower@[j],
        decreases lower@.len() - i,
    {
        if lower_of(cs[from + i]) != lower[i] {
            proof {
                assert(cs@.subrange(from as int, to as int)[i as int] == cs@[from + i]);
            }
            return false;
        }
        i = i + 1;
    }
    proof {
        let s = cs@.subrange(from as int, to as int);
        assert forall|j: int| 0 <= j < s.len() implies ascii_lower(#[trigger] s[j]) == lower@[j] by {
            assert(s[j] == cs@[from + j]);
        }
    }
    true
}

} // verus!
