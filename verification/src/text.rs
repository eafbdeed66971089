//! Reading whitespace-separated fields and unsigned integers out of text, as
//! the standard library's `split_whitespace` and `u64` parsing do.
use vstd::prelude::*;
use vstd::std_specs::iter::IteratorSpec;

verus! {

/// A character with the Unicode `White_Space` property.
pub open spec fn is_whitespace(c: char) -> bool {
    let u = c as u32;
    ||| 0x09 <= u <= 0x0D
    ||| u == 0x20
    ||| u == 0x85
    ||| u == 0xA0
    ||| u == 0x1680
    ||| 0x2000 <= u <= 0x200A
    ||| u == 0x2028
    ||| u == 0x2029
    ||| u == 0x202F
    ||| u == 0x205F
    ||| u == 0x3000
}

pub fn char_is_whitespace(c: char) -> (r: bool)
    ensures
        r == is_whitespace(c),
{
    let u = c as u32;
    (0x09 <= u && u <= 0x0D) || u == 0x20 || u == 0x85 || u == 0xA0 || u == 0x1680 || (0x2000 <= u && u
        <= 0x200A) || u == 0x2028 || u == 0x2029 || u == 0x202F || u == 0x205F || u == 0x3000
}

/// `s` without its leading whitespace.
pub open spec fn skip_ws(s: Seq<char>) -> Seq<char>
    decreases s.len(),
{
    if s.len() > 0 && is_whitespace(s[0]) {
        skip_ws(s.drop_first())
    } else {
        s
    }
}

/// The length of the run of non-whitespace that starts `s`.
pub open spec fn token_len(s: Seq<char>) -> nat
    decreases s.len(),
{
    if s.len() > 0 && !is_whitespace(s[0]) {
        1 + token_len(s.drop_first())
    } else {
        0
    }
}

pub proof fn lemma_skip_ws(s: Seq<char>)
    ensures
        skip_ws(s).len() <= s.len(),
        skip_ws(s).len() > 0 ==> !is_whitespace(skip_ws(s)[0]),
        skip_ws(s) == s.skip(s.len() - skip_ws(s).len()),
    decreases s.len(),
{
    if s.len() > 0 && is_whitespace(s[0]) {
        lemma_skip_ws(s.drop_first());
        assert(s.drop_first().skip(s.drop_first().len() - skip_ws(s.drop_first()).len()) =~= s.skip(
            s.len() - skip_ws(s).len(),
        ));
    } else {
        assert(s.skip(0) =~= s);
    }
}

pub proof fn lemma_token_len(s: Seq<char>)
    ensures
        token_len(s) <= s.len(),
        s.len() > 0 && !is_whitespace(s[0]) ==> token_len(s) >= 1,
        forall|i: int| 0 <= i < token_len(s) ==> !is_whitespace(#[trigger] s[i]),
        token_len(s) < s.len() ==> is_whitespace(s[token_len(s) as int]),
    decreases s.len(),
{
    if s.len() > 0 && !is_whitespace(s[0]) {
        lemma_token_len(s.drop_first());
        assert forall|i: int| 0 <= i < token_len(s) implies !is_whitespace(#[trigger] s[i]) by {
            if i > 0 {
                assert(s[i] == s.drop_first()[i - 1]);
            }
        }
        if token_len(s) < s.len() {
            assert(s[token_len(s) as int] == s.drop_first()[token_len(s.drop_first()) as int]);
        }
    }
}

/// The `n`-th whitespace-separated field of `s`, counting from zero.
pub open spec fn nth_field(s: Seq<char>, n: nat) -> Option<Seq<char>>
    decreases s.len(),
{
    let t = skip_ws(s);
    if t.len() == 0 {
        None
    } else if n == 0 {
        Some(t.take(token_len(t) as int))
    } else {
        proof {
            lemma_skip_ws(s);
            lemma_token_len(t);
        }
        nth_field(t.skip(token_len(t) as int), (n - 1) as nat)
    }
}

pub open spec fn is_digit(c: char) -> bool {
    0x30 <= (c as u32) <= 0x39
}

/// The number the decimal digits `d` spell.
pub open spec fn digits_value(d: Seq<char>) -> nat
    decreases d.len(),
{
    if d.len() == 0 {
        0
    } else {
        digits_value(d.drop_last()) * 10 + ((d.last() as u32) - 0x30) as nat
    }
}

/// `tok` without one leading `+`.
pub open spec fn unsigned_digits(tok: Seq<char>) -> Seq<char> {
    if tok.len() > 0 && tok[0] == '+' {
        tok.drop_first()
    } else {
        tok
    }
}

pub open spec fn all_digits(d: Seq<char>) -> bool {
    forall|i: int| 0 <= i < d.len() ==> #[trigger] is_digit(d[i])
}

/// What parsing `tok` as a `u64` gives: an optional `+`, then at least one
/// decimal digit and nothing else, for a value that fits.
pub open spec fn parse_u64(tok: Seq<char>) -> Option<u64> {
    let d = unsigned_digits(tok);
    if d.len() == 0 || !all_digits(d) || digits_value(d) > u64::MAX {
        None
    } else {
        Some(digits_value(d) as u64)
    }
}

proof fn lemma_digits_value_grows(d: Seq<char>, k: int)
    requires
        0 <= k <= d.len(),
        forall|i: int| 0 <= i < d.len() ==> #[trigger] is_digit(d[i]),
    ensures
        digits_value(d.take(k)) <= digits_value(d),
    decreases d.len(),
{
    if k < d.len() {
        assert(d.drop_last().take(k) =~= d.take(k));
        assert forall|i: int| 0 <= i < d.drop_last().len() implies #[trigger] is_digit(d.drop_last()[i]) by {
            assert(d.drop_last()[i] == d[i]);
        }
        lemma_digits_value_grows(d.drop_last(), k);
    } else {
        assert(d.take(k) =~= d);
    }
}

/// The characters of `s`.
pub fn chars_of(s: &str) -> (r: Vec<char>)
    ensures
        r@ == s@,
{
    broadcast use vstd::string::axiom_spec_iter;
    let mut out: Vec<char> = Vec::new();
    for c in it: s.chars()
        invariant
            it.seq() == s@,
            out@ == it.seq().take(it.index() as int),
    {
        assert(it.seq().take(it.index() as int + 1) == it.seq().take(it.index() as int).push(c));
        out.push(c);
    }
    assert(s@.take(s@.len() as int) =~= s@);
    out
}

/// The index just past the whitespace that starts `s[i..]`.
pub fn skip_ws_from(s: &Vec<char>, i: usize) -> (j: usize)
    requires
        i <= s.len(),
    ensures
        i <= j <= s.len(),
        s@.skip(j as int) == skip_ws(s@.skip(i as int)),
{
    let mut j = i;
    while j < s.len() && char_is_whitespace(s[j])
        invariant
            i <= j <= s.len(),
            skip_ws(s@.skip(i as int)) == skip_ws(s@.skip(j as int)),
        decreases s.len() - j,
    {
        assert(s@.skip(j as int).drop_first() =~= s@.skip(j as int + 1));
        j = j + 1;
    }
    j
}

/// The index just past the run of non-whitespace that starts at `i`.
pub fn token_end(s: &Vec<char>, i: usize) -> (e: usize)
    requires
        i <= s.len(),
    ensures
        i <= e <= s.len(),
        e - i == token_len(s@.skip(i as int)),
{
    let mut e = i;
    while e < s.len() && !char_is_whitespace(s[e])
        invariant
            i <= e <= s.len(),
            token_len(s@.skip(i as int)) == (e - i) + token_len(s@.skip(e as int)),
        decreases s.len() - e,
    {
        assert(s@.skip(e as int).drop_first() =~= s@.skip(e as int + 1));
        e = e + 1;
    }
    e
}

/// Where the `n`-th whitespace-separated field of `s[start..]` lies.
pub fn nth_field_range(s: &Vec<char>, start: usize, n: usize) -> (r: Option<(usize, usize)>)
    requires
        start <= s.len(),
    ensures
        match r {
            None => nth_field(s@.skip(start as int), n as nat) is None,
            Some((a, b)) => a <= b <= s.len() && nth_field(s@.skip(start as int), n as nat) == Some(
                s@.subrange(a as int, b as int),
            ),
        },
{
    let mut i = start;
    let mut k: usize = 0;
    loop
        invariant
            start <= i <= s.len(),
            k <= n,
            nth_field(s@.skip(start as int), n as nat) == nth_field(s@.skip(i as int), (n - k) as nat),
        decreases s.len() - i,
    {
        let a = skip_ws_from(s, i);
        if a == s.len() {
            return None;
        }
        let b = token_end(s, a);
        let ghost t = s@.skip(a as int);
        proof {
            lemma_skip_ws(s@.skip(i as int));
            lemma_token_len(t);
            assert(t.take(token_len(t) as int) =~= s@.subrange(a as int, b as int));
            assert(t.skip(token_len(t) as int) =~= s@.skip(b as int));
        }
        if k == n {
            return Some((a, b));
        }
        i = b;
        k = k + 1;
    }
}

/// What parsing `s[a..b]` as a `u64` gives.
pub fn parse_u64_range(s: &Vec<char>, a: usize, b: usize) -> (r: Option<u64>)
    requires
        a <= b <= s.len(),
    ensures
        r == parse_u64(s@.subrange(a as int, b as int)),
{
    let ghost tok = s@.subrange(a as int, b as int);
    let start = if a < b && s[a] == '+' {
        a + 1
    } else {
        a
    };
    let ghost d = s@.subrange(start as int, b as int);
    assert(d =~= unsigned_digits(tok));
    if start == b {
        return None;
    }
    let mut acc: u64 = 0;
    let mut i = start;
    while i < b
        invariant
            start <= i <= b <= s.len(),
            start < b,
            d == s@.subrange(start as int, b as int),
            tok == s@.subrange(a as int, b as int),
            d == unsigned_digits(tok),
            acc == digits_value(d.take(i - start)),
            forall|j: int| 0 <= j < i - start ==> #[trigger] is_digit(d[j]),
        decreases b - i,
    {
        let c = s[i];
        assert(d[i - start] == c);
        let u = c as u32;
        if u < 0x30 || u > 0x39 {
            assert(!is_digit(d[i - start]));
            return None;
        }
        let digit = (u - 0x30) as u64;
        assert(d.take(i - start + 1).drop_last() =~= d.take(i - start));
        assert(d.take(i - start + 1).last() == c);
        if acc > (u64::MAX - digit) / 10 {
            proof {
                assert(digits_value(d.take(i - start + 1)) > u64::MAX) by (nonlinear_arith)
                    requires
                        digits_value(d.take(i - start + 1)) == acc * 10 + digit,
                        acc > (u64::MAX - digit) / 10,
                        digit <= 9,
                ;
                if all_digits(d) {
                    lemma_digits_value_grows(d, i - start + 1);
                }
            }
            return None;
        }
        proof {
            assert(acc * 10 + digit <= u64::MAX) by (nonlinear_arith)
                requires
                    acc <= (u64::MAX - digit) / 10,
                    digit <= 9,
            ;
        }
        acc = acc * 10 + digit;
        i = i + 1;
    }
    assert(d.take(b - start) =~= d);
    Some(acc)
}


/// The numbers among the whitespace-separated fields of `s`, in order: each
/// field that parses as a `u64`, the others passed over.
pub open spec fn numeric_fields(s: Seq<char>) -> Seq<u64>
    decreases s.len(),
{
    let t = skip_ws(s);
    if t.len() == 0 {
        Seq::empty()
    } else {
        proof {
            lemma_skip_ws(s);
            lemma_token_len(t);
        }
        let rest = numeric_fields(t.skip(token_len(t) as int));
        match parse_u64(t.take(token_len(t) as int)) {
            Some(v) => seq![v] + rest,
            None => rest,
        }
    }
}

/// The numbers among the whitespace-separated fields of `s[start..]`.
pub fn numeric_fields_from(s: &Vec<char>, start: usize) -> (r: Vec<u64>)
    requires
        start <= s.len(),
    ensures
        r@ == numeric_fields(s@.skip(start as int)),
{
    let mut out: Vec<u64> = Vec::new();
    let mut i = start;
    loop
        invariant
            start <= i <= s.len(),
            out@ + numeric_fields(s@.skip(i as int)) == numeric_fields(s@.skip(start as int)),
        decreases s.len() - i,
    {
        let a = skip_ws_from(s, i);
        if a == s.len() {
            proof {
                assert(skip_ws(s@.skip(i as int)).len() == 0);
                assert(out@ + numeric_fields(s@.skip(i as int)) =~= out@);
            }
            return out;
        }
        let b = token_end(s, a);
        let ghost t = s@.skip(a as int);
        proof {
            lemma_skip_ws(s@.skip(i as int));
            lemma_token_len(t);
            assert(t.take(token_len(t) as int) =~= s@.subrange(a as int, b as int));
            assert(t.skip(token_len(t) as int) =~= s@.skip(b as int));
        }
        let ghost before = out@;
        match parse_u64_range(s, a, b) {
            Some(v) => {
                out.push(v);
                proof {
                    assert(out@ + numeric_fields(s@.skip(b as int)) =~= before + (seq![v] + numeric_fields(s@.skip(b as int))));
                }
            },
            None => {},
        }
        i = b;
    }
}

/// Where the first line feed of `s` is.
pub open spec fn first_lf(s: Seq<char>) -> Option<int>
    decreases s.len(),
{
    if s.len() == 0 {
        None
    } else if s[0] == '\n' {
        Some(0)
    } else {
        match first_lf(s.drop_first()) {
            Some(i) => Some(i + 1),
            None => None,
        }
    }
}

pub proof fn lemma_first_lf(s: Seq<char>)
    ensures
        first_lf(s) matches Some(i) ==> 0 <= i < s.len() && s[i] == '\n' && forall|j: int| 0 <= j < i ==> s[j] != '\n',
        first_lf(s) is None ==> forall|j: int| 0 <= j < s.len() ==> s[j] != '\n',
    decreases s.len(),
{
    if s.len() > 0 && s[0] != '\n' {
        lemma_first_lf(s.drop_first());
        assert forall|j: int| 1 <= j < s.len() implies s[j] == s.drop_first()[j - 1] by {}
    }
}

/// A line ended by `\r\n`, without its carriage return.
pub open spec fn strip_cr(l: Seq<char>) -> Seq<char> {
    if l.len() > 0 && l.last() == '\r' {
        l.drop_last()
    } else {
        l
    }
}

/// The lines of `s`, as `str::lines` splits them: at each line feed, with
/// the carriage return of a `\r\n` ending dropped, and no empty line after a
/// final line feed.
pub open spec fn lines(s: Seq<char>) -> Seq<Seq<char>>
    decreases s.len(),
{
    if s.len() == 0 {
        Seq::empty()
    } else {
        match first_lf(s) {
            None => seq![s],
            Some(i) => {
                proof {
                    lemma_first_lf(s);
                }
                seq![strip_cr(s.take(i))] + lines(s.skip(i + 1))
            },
        }
    }
}

/// Where the line that starts at `i` ends, and where the next one starts:
/// the line is `s[i..end]`, and `next` lies past its line feed.
pub fn next_line(s: &Vec<char>, i: usize) -> (r: (usize, Option<usize>))
    requires
        i < s.len(),
    ensures
        i <= r.0 <= s.len(),
        r.1 matches Some(n) ==> i < n <= s.len(),
        lines(s@.skip(i as int)) == seq![s@.subrange(i as int, r.0 as int)] + match r.1 {
            Some(n) => lines(s@.skip(n as int)),
            None => Seq::empty(),
        },
{
    let ghost t = s@.skip(i as int);
    let mut e = i;
    while e < s.len() && s[e] != '\n'
        invariant
            i <= e <= s.len(),
            forall|j: int| i <= j < e ==> s@[j] != '\n',
        decreases s.len() - e,
    {
        e = e + 1;
    }
    proof {
        lemma_first_lf(t);
        if e < s.len() {
            assert(t[e - i] == '\n');
            assert(forall|j: int| 0 <= j < e - i ==> t[j] == s@[i + j]);
            match first_lf(t) {
                Some(k) => {
                    if k < e - i {
                        assert(t[k] == s@[i + k]);
                    }
                    assert(k == e - i);
                },
                None => {},
            }
        } else {
            assert forall|j: int| 0 <= j < t.len() implies t[j] != '\n' by {
                assert(t[j] == s@[i + j]);
            }
            match first_lf(t) {
                Some(k) => {
                    assert(t[k] == '\n');
                },
                None => {},
            }
        }
    }
    if e == s.len() {
        proof {
            assert(t =~= s@.subrange(i as int, e as int));
        }
        return (e, None);
    }
    let end = if e > i && s[e - 1] == '\r' {
        e - 1
    } else {
        e
    };
    proof {
        assert(t.take(e - i) =~= s@.subrange(i as int, e as int));
        assert(strip_cr(t.take(e - i)) =~= s@.subrange(i as int, end as int));
        assert(t.skip(e - i + 1) =~= s@.skip(e + 1));
    }
    (end, Some(e + 1))
}

/// `s` without the whitespace that ends it.
pub open spec fn trim_end(s: Seq<char>) -> Seq<char>
    decreases s.len(),
{
    if s.len() > 0 && is_whitespace(s.last()) {
        trim_end(s.drop_last())
    } else {
        s
    }
}

/// `s` without the whitespace at either end, as `str::trim` gives it.
pub open spec fn trim(s: Seq<char>) -> Seq<char> {
    trim_end(skip_ws(s))
}

/// Where `s[a..b]` lies once trimmed of whitespace at both ends.
pub fn trim_range(s: &Vec<char>, a: usize, b: usize) -> (r: (usize, usize))
    requires
        a <= b <= s.len(),
    ensures
        a <= r.0 <= r.1 <= b,
        s@.subrange(r.0 as int, r.1 as int) == trim(s@.subrange(a as int, b as int)),
{
    let ghost u = s@.subrange(a as int, b as int);
    let mut i = a;
    while i < b && char_is_whitespace(s[i])
        invariant
            a <= i <= b <= s.len(),
            skip_ws(u) == skip_ws(s@.subrange(i as int, b as int)),
        decreases b - i,
    {
        assert(s@.subrange(i as int, b as int).drop_first() =~= s@.subrange(i as int + 1, b as int));
        i = i + 1;
    }
    proof {
        assert(skip_ws(s@.subrange(i as int, b as int)) == s@.subrange(i as int, b as int));
    }
    let mut j = b;
    while j > i && char_is_whitespace(s[j - 1])
        invariant
            a <= i <= j <= b <= s.len(),
            trim(u) == trim_end(s@.subrange(i as int, j as int)),
        decreases j - i,
    {
        assert(s@.subrange(i as int, j as int).drop_last() =~= s@.subrange(i as int, j as int - 1));
        j = j - 1;
    }
    (i, j)
}

} // verus!
