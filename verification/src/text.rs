//! Text as characters: trimming, splitting and numbers.

use vstd::prelude::*;

verus! {

/// `String::from_iter` on the characters of a vector: the string made
/// of the characters of `chars`, in their order.
#[verifier::external_body]
pub(crate) fn string_from_chars(chars: &Vec<char>) -> (text: String)
    ensures
        text@ == chars@,
{
    String::from_iter(chars.iter())
}

/// The characters of `text`.
pub fn chars_of(text: &str) -> (chars: Vec<char>)
    ensures
        chars@ == text@,
{
    let mut chars: Vec<char> = Vec::new();
    for c in it: text.chars()
        invariant
            chars@ == it.seq().take(it.index() as int),
            it.seq() == text@,
    {
        chars.push(c);
    }
    chars
}

/// Whether `c` is white space, as Unicode defines it.
pub open spec fn is_space(c: char) -> bool {
    let n = c as u32;
    ||| 0x09 <= n <= 0x0D
    ||| n == 0x20
    ||| n == 0x85
    ||| n == 0xA0
    ||| n == 0x1680
    ||| 0x2000 <= n <= 0x200A
    ||| n == 0x2028
    ||| n == 0x2029
    ||| n == 0x202F
    ||| n == 0x205F
    ||| n == 0x3000
}

/// Decides whether `c` is white space.
pub fn is_white_space(c: char) -> (r: bool)
    ensures
        r == is_space(c),
{
    let n: u32 = c as u32;
    (0x09 <= n && n <= 0x0D) || n == 0x20 || n == 0x85 || n == 0xA0 || n == 0x1680 || (0x2000 <= n
        && n <= 0x200A) || n == 0x2028 || n == 0x2029 || n == 0x202F || n == 0x205F || n == 0x3000
}

/// The texts behind a sequence of character vectors.
pub open spec fn texts(parts: Seq<Vec<char>>) -> Seq<Seq<char>> {
    Seq::new(parts.len(), |i: int| parts[i]@)
}

/// The texts of a sequence of strings.
pub open spec fn string_views(strings: Seq<String>) -> Seq<Seq<char>> {
    Seq::new(strings.len(), |i: int| strings[i]@)
}

/// The characters of `chars` from index `from` up to, not including,
/// index `to`.
pub fn copy_range(chars: &Vec<char>, from: usize, to: usize) -> (part: Vec<char>)
    requires
        from <= to <= chars@.len(),
    ensures
        part@ == chars@.subrange(from as int, to as int),
{
    let mut part: Vec<char> = Vec::new();
    let mut i: usize = from;
    while i < to
        invariant
            from <= i <= to,
            to <= chars@.len(),
            part@ == chars@.subrange(from as int, i as int),
        decreases to - i,
    {
        part.push(chars[i]);
        i = i + 1;
    }
    part
}

/// `s` without the white space at its start.
pub open spec fn trim_start(s: Seq<char>) -> Seq<char>
    decreases s.len(),
{
    if s.len() > 0 && is_space(s.first()) {
        trim_start(s.drop_first())
    } else {
        s
    }
}

/// `s` without the white space at its end.
pub open spec fn trim_end(s: Seq<char>) -> Seq<char>
    decreases s.len(),
{
    if s.len() > 0 && is_space(s.last()) {
        trim_end(s.drop_last())
    } else {
        s
    }
}

/// `s` without the white space at its start and at its end.
pub open spec fn trim(s: Seq<char>) -> Seq<char> {
    trim_end(trim_start(s))
}

/// `chars` without the white space at its start and at its end.
pub fn trimmed(chars: &Vec<char>) -> (part: Vec<char>)
    ensures
        part@ == trim(chars@),
{
    let n: usize = chars.len();
    let mut a: usize = 0;
    let mut scanning = true;
    proof {
        assert(chars@.skip(0) =~= chars@);
    }
    while scanning && a < n
        invariant
            n == chars@.len(),
            a <= n,
            trim_start(chars@) == trim_start(chars@.skip(a as int)),
            !scanning ==> a < n && !is_space(chars@[a as int]),
        decreases n - a + if scanning { 1int } else { 0int },
    {
        if is_white_space(chars[a]) {
            proof {
                assert(chars@.skip(a as int).drop_first() =~= chars@.skip(a + 1));
            }
            a = a + 1;
        } else {
            scanning = false;
        }
    }
    let mut b: usize = n;
    scanning = true;
    while scanning && b > a
        invariant
            n == chars@.len(),
            a <= b <= n,
            trim(chars@) == trim_end(chars@.subrange(a as int, b as int)),
            !scanning ==> b > a && !is_space(chars@[b - 1]),
        decreases b - a + if scanning { 1int } else { 0int },
    {
        if is_white_space(chars[b - 1]) {
            proof {
                assert(chars@.subrange(a as int, b as int).drop_last() =~= chars@.subrange(
                    a as int,
                    b - 1,
                ));
            }
            b = b - 1;
        } else {
            scanning = false;
        }
    }
    copy_range(chars, a, b)
}

/// Whether `sep` stands in `s` at index `i`.
pub open spec fn matches_at(s: Seq<char>, sep: Seq<char>, i: int) -> bool {
    0 <= i && i + sep.len() <= s.len() && s.subrange(i, i + sep.len()) == sep
}

/// The first index at or after `from` at which `sep` stands in `s`, or
/// -1 where it stands at none or is empty.
pub open spec fn find(s: Seq<char>, sep: Seq<char>, from: int) -> int
    decreases s.len() - from,
{
    if sep.len() == 0 || from < 0 || from + sep.len() > s.len() {
        -1
    } else if matches_at(s, sep, from) {
        from
    } else {
        find(s, sep, from + 1)
    }
}

/// The parts of `s` between the places at which `sep` stands, found
/// from left to right: what is before the first `sep`, then the parts
/// of what follows it. Where `sep` is empty or does not stand in `s`,
/// `s` is the one part.
pub open spec fn split(s: Seq<char>, sep: Seq<char>) -> Seq<Seq<char>>
    decreases s.len(),
{
    let i = find(s, sep, 0);
    if sep.len() == 0 || i < 0 || i + sep.len() > s.len() {
        seq![s]
    } else {
        seq![s.take(i)] + split(s.skip(i + sep.len()), sep)
    }
}

/// Whether `s` begins with `prefix`.
pub open spec fn starts_with(s: Seq<char>, prefix: Seq<char>) -> bool {
    matches_at(s, prefix, 0)
}

/// Decides whether `sep` stands in `chars` at index `i`.
pub fn stands_at(chars: &Vec<char>, sep: &Vec<char>, i: usize) -> (r: bool)
    ensures
        r == matches_at(chars@, sep@, i as int),
{
    let n: usize = chars.len();
    let m: usize = sep.len();
    if i > n || n - i < m {
        return false;
    }
    let mut j: usize = 0;
    while j < m
        invariant
            n == chars@.len(),
            m == sep@.len(),
            i + m <= n,
            j <= m,
            forall|k: int| 0 <= k < j ==> chars@[i + k] == sep@[k],
        decreases m - j,
    {
        if chars[i + j] != sep[j] {
            return false;
        }
        j = j + 1;
    }
    proof {
        assert(chars@.subrange(i as int, i + m) =~= sep@);
    }
    true
}

/// Decides whether `chars` begins with `prefix`.
pub fn has_prefix(chars: &Vec<char>, prefix: &Vec<char>) -> (r: bool)
    ensures
        r == starts_with(chars@, prefix@),
{
    stands_at(chars, prefix, 0)
}

/// The parts of `chars` between the places at which `sep` stands.
pub fn split_at_each(chars: &Vec<char>, sep: &Vec<char>) -> (parts: Vec<Vec<char>>)
    ensures
        texts(parts@) == split(chars@, sep@),
{
    let n: usize = chars.len();
    let m: usize = sep.len();
    let mut parts: Vec<Vec<char>> = Vec::new();
    if m == 0 {
        parts.push(copy_range(chars, 0, n));
        proof {
            assert(chars@.subrange(0, n as int) =~= chars@);
        }
        return parts;
    }
    let mut start: usize = 0;
    let mut k: usize = 0;
    proof {
        assert(chars@.skip(0) =~= chars@);
    }
    while n - k >= m
        invariant
            n == chars@.len(),
            m == sep@.len(),
            m > 0,
            start <= k <= n,
            split(chars@, sep@) == texts(parts@) + split(chars@.skip(start as int), sep@),
            find(chars@.skip(start as int), sep@, 0) == find(
                chars@.skip(start as int),
                sep@,
                k - start,
            ),
        decreases n - k,
    {
        let ghost rest = chars@.skip(start as int);
        let ghost j = k - start;
        proof {
            assert(rest.subrange(j, j + m) =~= chars@.subrange(k as int, k + m));
        }
        if stands_at(chars, sep, k) {
            let part = copy_range(chars, start, k);
            parts.push(part);
            proof {
                assert(rest.take(j) =~= chars@.subrange(start as int, k as int));
                assert(rest.skip(j + m) =~= chars@.skip(k + m));
            }
            start = k + m;
            k = start;
        } else {
            k = k + 1;
        }
    }
    let part = copy_range(chars, start, n);
    parts.push(part);
    parts
}

/// The words of `s`: its longest runs of characters that are not
/// white space, in their order.
///
/// The definition goes character by character: white space adds
/// nothing, a character after another character of a word lengthens
/// the last word, and any other character starts a new word.
pub open spec fn words(s: Seq<char>) -> Seq<Seq<char>>
    decreases s.len(),
{
    if s.len() == 0 {
        Seq::empty()
    } else {
        let before = words(s.drop_last());
        let c = s.last();
        if is_space(c) {
            before
        } else if s.len() >= 2 && !is_space(s[s.len() - 2]) {
            before.drop_last().push(before.last().push(c))
        } else {
            before.push(seq![c])
        }
    }
}

/// The words of `chars`.
pub fn split_words(chars: &Vec<char>) -> (found: Vec<Vec<char>>)
    ensures
        texts(found@) == words(chars@),
{
    let n: usize = chars.len();
    let mut found: Vec<Vec<char>> = Vec::new();
    let mut current: Vec<char> = Vec::new();
    let mut i: usize = 0;
    while i < n
        invariant
            n == chars@.len(),
            i <= n,
            current@.len() > 0 <==> i > 0 && !is_space(chars@[i - 1]),
            current@.len() > 0 ==> words(chars@.take(i as int)) == texts(found@).push(current@),
            current@.len() == 0 ==> words(chars@.take(i as int)) == texts(found@),
        decreases n - i,
    {
        let c: char = chars[i];
        let ghost upto = chars@.take(i as int + 1);
        let ghost word = current@;
        proof {
            assert(upto.drop_last() =~= chars@.take(i as int));
        }
        if is_white_space(c) {
            if current.len() > 0 {
                found.push(current);
                current = Vec::new();
            }
        } else {
            current.push(c);
            proof {
                if word.len() == 0 {
                    assert(current@ =~= seq![c]);
                }
            }
        }
        i = i + 1;
    }
    proof {
        assert(chars@.take(n as int) =~= chars@);
    }
    if current.len() > 0 {
        found.push(current);
    }
    found
}

/// Whether `c` is one of the digits `0` to `9`.
pub open spec fn is_digit(c: char) -> bool {
    0x30 <= c as u32 <= 0x39
}

/// Whether `s` is a number in decimal: one digit or more, and nothing
/// else.
pub open spec fn is_number(s: Seq<char>) -> bool {
    s.len() > 0 && forall|i: int| 0 <= i < s.len() ==> is_digit(#[trigger] s[i])
}

/// The value of the digits `s` in decimal.
pub open spec fn digits_value(s: Seq<char>) -> nat
    decreases s.len(),
{
    if s.len() == 0 {
        0
    } else {
        (digits_value(s.drop_last()) * 10 + (s.last() as u32 - 0x30)) as nat
    }
}

/// The number that `s` is in decimal, where it is one that fits.
pub open spec fn decimal(s: Seq<char>) -> Option<u64> {
    if is_number(s) && digits_value(s) <= u64::MAX {
        Some(digits_value(s) as u64)
    } else {
        None
    }
}

/// The value of digits is no less than the value of the digits they
/// begin with.
pub proof fn lemma_digits_value_grows(s: Seq<char>, i: int)
    requires
        0 <= i <= s.len(),
        forall|k: int| 0 <= k < s.len() ==> is_digit(#[trigger] s[k]),
    ensures
        digits_value(s.take(i)) <= digits_value(s),
    decreases s.len() - i,
{
    if i < s.len() {
        lemma_digits_value_grows(s, i + 1);
        assert(s.take(i + 1).drop_last() =~= s.take(i));
    } else {
        assert(s.take(i) =~= s);
    }
}

/// The number that `chars` is in decimal, where it is one that fits.
pub fn parse_decimal(chars: &Vec<char>) -> (number: Option<u64>)
    ensures
        number == decimal(chars@),
{
    let n: usize = chars.len();
    if n == 0 {
        return None;
    }
    let mut value: u64 = 0;
    let mut i: usize = 0;
    while i < n
        invariant
            n == chars@.len(),
            i <= n,
            forall|k: int| 0 <= k < i ==> is_digit(#[trigger] chars@[k]),
            value == digits_value(chars@.take(i as int)),
        decreases n - i,
    {
        let c: u32 = chars[i] as u32;
        if c < 0x30 || c > 0x39 {
            return None;
        }
        let digit: u64 = (c - 0x30) as u64;
        proof {
            assert(chars@.take(i as int + 1).drop_last() =~= chars@.take(i as int));
            if forall|k: int| 0 <= k < n ==> is_digit(#[trigger] chars@[k]) {
                lemma_digits_value_grows(chars@, i as int + 1);
            }
        }
        if value > (u64::MAX - digit) / 10 {
            return None;
        }
        value = value * 10 + digit;
        i = i + 1;
    }
    proof {
        assert(chars@.take(n as int) =~= chars@);
    }
    Some(value)
}

} // verus!
