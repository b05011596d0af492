//! Text: trimming, splitting and reading decimal numbers.
use vstd::prelude::*;
use vstd::slice::slice_subrange;
use vstd::string::*;

use crate::slots::views;

verus! {

/// A character with the Unicode property `White_Space`.
pub open spec fn is_white(c: char) -> bool {
    let u = c as u32;
    ||| 0x9 <= u <= 0xd
    ||| u == 0x20
    ||| u == 0x85
    ||| u == 0xa0
    ||| u == 0x1680
    ||| 0x2000 <= u <= 0x200a
    ||| u == 0x2028
    ||| u == 0x2029
    ||| u == 0x202f
    ||| u == 0x205f
    ||| u == 0x3000
}

/// `s` without its leading whitespace.
pub open spec fn trim_start(s: Seq<char>) -> Seq<char>
    decreases s.len(),
{
    if s.len() > 0 && is_white(s[0]) {
        trim_start(s.skip(1))
    } else {
        s
    }
}

/// `s` without its trailing whitespace.
pub open spec fn trim_end(s: Seq<char>) -> Seq<char>
    decreases s.len(),
{
    if s.len() > 0 && is_white(s.last()) {
        trim_end(s.drop_last())
    } else {
        s
    }
}

/// `s` without whitespace at either end.
pub open spec fn trimmed(s: Seq<char>) -> Seq<char> {
    trim_end(trim_start(s))
}

/// `s` without the markers `0x` that it starts with, however many.
pub open spec fn without_0x(s: Seq<char>) -> Seq<char>
    decreases s.len(),
{
    if s.len() >= 2 && s[0] == '0' && s[1] == 'x' {
        without_0x(s.skip(2))
    } else {
        s
    }
}

/// The place of the first `c` in `s`; its length when there is none.
pub open spec fn find_char(s: Seq<char>, c: char) -> nat
    decreases s.len(),
{
    if s.len() == 0 || s[0] == c {
        0
    } else {
        1 + find_char(s.skip(1), c)
    }
}

pub open spec fn is_digit(c: char) -> bool {
    '0' <= c <= '9'
}

/// The number that decimal digits write.
pub open spec fn digits_value(s: Seq<char>) -> nat
    decreases s.len(),
{
    if s.len() == 0 {
        0
    } else {
        digits_value(s.drop_last()) * 10 + (s.last() as u32 - '0' as u32) as nat
    }
}

/// The number that `s` writes with digits alone, if it is at most `max`.
pub open spec fn digits_number(s: Seq<char>, max: nat) -> Option<nat> {
    if s.len() > 0 && (forall|i: int| 0 <= i < s.len() ==> is_digit(#[trigger] s[i]))
        && digits_value(s) <= max {
        Some(digits_value(s))
    } else {
        None
    }
}

/// The unsigned decimal number that `s` writes, with an optional `+` before
/// it, if it is at most `max`.
pub open spec fn unsigned_number(s: Seq<char>, max: nat) -> Option<nat> {
    if s.len() > 0 && s[0] == '+' {
        digits_number(s.skip(1), max)
    } else {
        digits_number(s, max)
    }
}

/// The signed decimal number that `s` writes, if it fits 32 bits.
pub open spec fn signed_number(s: Seq<char>) -> Option<int> {
    if s.len() > 0 && s[0] == '-' {
        match digits_number(s.skip(1), 0x8000_0000) {
            Some(v) => Some(-v),
            None => None,
        }
    } else {
        match unsigned_number(s, 0x7fff_ffff) {
            Some(v) => Some(v as int),
            None => None,
        }
    }
}

/// The digits that write `n` in base ten.
pub open spec fn decimal(n: nat) -> Seq<char>
    decreases n,
{
    if n < 10 {
        seq![(('0' as u32) + n) as char]
    } else {
        decimal(n / 10).push((('0' as u32) + n % 10) as char)
    }
}

/// The decimal text of an integer.
pub open spec fn decimal_int(n: int) -> Seq<char> {
    if n < 0 {
        seq!['-'] + decimal((-n) as nat)
    } else {
        decimal(n as nat)
    }
}

/// What follows `key` on the first line of `s` that starts with `key`.
pub open spec fn field_of(s: Seq<char>, key: Seq<char>) -> Option<Seq<char>>
    decreases s.len(),
{
    let n = find_char(s, '\n');
    let line = s.take(n as int);
    if key.is_prefix_of(line) {
        Some(line.skip(key.len() as int))
    } else if n >= s.len() {
        None
    } else {
        field_of(s.skip(n as int + 1), key)
    }
}

/// The parts of `s` between the characters `c`.
pub open spec fn split_by(s: Seq<char>, c: char) -> Seq<Seq<char>>
    decreases s.len(),
{
    let n = find_char(s, c) as int;
    if n >= s.len() {
        seq![s]
    } else {
        seq![s.take(n)] + split_by(s.skip(n + 1), c)
    }
}

/// The first `c` of `s` is where [`find_char`] says.
pub proof fn lemma_find_char(s: Seq<char>, c: char)
    ensures
        find_char(s, c) <= s.len(),
        find_char(s, c) < s.len() ==> s[find_char(s, c) as int] == c,
        forall|i: int| 0 <= i < find_char(s, c) ==> #[trigger] s[i] != c,
    decreases s.len(),
{
    if s.len() == 0 || s[0] == c {
    } else {
        lemma_find_char(s.skip(1), c);
        assert forall|i: int| 0 <= i < find_char(s, c) implies #[trigger] s[i] != c by {
            if i > 0 {
                assert(s.skip(1)[i - 1] == s[i]);
            }
        }
    }
}

/// A place before which there is no `c`, and where there is one or the text
/// ends, is the place of the first.
pub proof fn lemma_find_char_is(s: Seq<char>, c: char, n: int)
    requires
        0 <= n <= s.len(),
        forall|i: int| 0 <= i < n ==> #[trigger] s[i] != c,
        n < s.len() ==> s[n] == c,
    ensures
        find_char(s, c) == n,
{
    lemma_find_char(s, c);
    let f = find_char(s, c) as int;
    if f < n {
        assert(s[f] != c);
    } else if n < f {
        assert(s[n] != c);
    }
}

/// The characters of `s`.
pub fn chars_of(s: &str) -> (v: Vec<char>)
    ensures
        v@ == s@,
{
    let mut v: Vec<char> = Vec::new();
    for c in it: s.chars()
        invariant
            it.seq() == s@,
            v@ == s@.take(it.index() as int),
    {
        assert(s@.take(it.index() as int + 1) =~= s@.take(it.index() as int).push(
            s@[it.index() as int],
        ));
        v.push(c);
    }
    assert(s@.take(s@.len() as int) =~= s@);
    v
}

/// Whether two texts are the same.
pub fn same_text(a: &str, b: &str) -> (r: bool)
    ensures
        r == (a@ == b@),
{
    a.to_owned() == b.to_owned()
}

/// `a` followed by `b`.
pub fn joined(a: &str, b: &str) -> (s: String)
    ensures
        s@ == a@ + b@,
{
    let mut s = a.to_owned();
    s.append(b);
    s
}

/// Whether `c` has the Unicode property `White_Space`.
pub fn white(c: char) -> (b: bool)
    ensures
        b == is_white(c),
{
    let u: u32 = c as u32;
    (0x9 <= u && u <= 0xd) || u == 0x20 || u == 0x85 || u == 0xa0 || u == 0x1680 || (0x2000 <= u
        && u <= 0x200a) || u == 0x2028 || u == 0x2029 || u == 0x202f || u == 0x205f || u == 0x3000
}

/// Where `s` without whitespace at either end begins and ends.
pub fn trim_bounds(s: &[char]) -> (r: (usize, usize))
    ensures
        r.0 <= r.1 <= s@.len(),
        s@.subrange(r.0 as int, r.1 as int) == trimmed(s@),
{
    let mut from: usize = 0;
    assert(s@.skip(0) =~= s@);
    while from < s.len() && white(s[from])
        invariant
            from <= s@.len(),
            trim_start(s@.skip(from as int)) == trim_start(s@),
        decreases s@.len() - from,
    {
        assert(s@.skip(from as int).skip(1) =~= s@.skip(from as int + 1));
        from = from + 1;
    }
    let ghost rest = s@.skip(from as int);
    assert(rest == trim_start(s@));
    let mut to: usize = s.len();
    assert(rest.take(to - from) =~= rest);
    while to > from && white(s[to - 1])
        invariant
            from <= to <= s@.len(),
            rest == s@.skip(from as int),
            trim_end(rest.take(to - from)) == trim_end(rest),
        decreases to,
    {
        assert(rest.take(to - from).drop_last() =~= rest.take(to - from - 1));
        assert(rest.take(to - from).last() == s@[to - 1]);
        to = to - 1;
    }
    assert(rest.take(to - from) =~= s@.subrange(from as int, to as int));
    (from, to)
}

/// `s` without whitespace at either end.
pub fn trim(s: &[char]) -> (r: &[char])
    ensures
        r@ == trimmed(s@),
{
    let (from, to) = trim_bounds(s);
    slice_subrange(s, from, to)
}

/// `s` without the markers `0x` that it starts with.
pub fn strip_0x(s: &[char]) -> (r: &[char])
    ensures
        r@ == without_0x(s@),
{
    let mut from: usize = 0;
    assert(s@.skip(0) =~= s@);
    while s.len() - from >= 2 && s[from] == '0' && s[from + 1] == 'x'
        invariant
            from <= s@.len(),
            without_0x(s@.skip(from as int)) == without_0x(s@),
        decreases s@.len() - from,
    {
        assert(s@.skip(from as int).skip(2) =~= s@.skip(from as int + 2));
        from = from + 2;
    }
    assert(s@.skip(from as int) =~= s@.subrange(from as int, s@.len() as int));
    slice_subrange(s, from, s.len())
}

/// The place of the first `c` in `s`; its length when there is none.
pub fn position(s: &[char], c: char) -> (n: usize)
    ensures
        n == find_char(s@, c),
{
    let mut n: usize = 0;
    while n < s.len() && s[n] != c
        invariant
            n <= s@.len(),
            forall|i: int| 0 <= i < n ==> #[trigger] s@[i] != c,
        decreases s@.len() - n,
    {
        n = n + 1;
    }
    proof {
        lemma_find_char_is(s@, c, n as int);
    }
    n
}

/// Reads digits alone.
fn read_digits(s: &[char], max: u64) -> (r: Option<u64>)
    ensures
        match r {
            Some(v) => digits_number(s@, max as nat) == Some(v as nat),
            None => digits_number(s@, max as nat) is None,
        },
{
    if s.len() == 0 {
        return None;
    }
    let mut value: u64 = 0;
    let mut i: usize = 0;
    assert(s@.take(0).len() == 0);
    while i < s.len()
        invariant
            i <= s@.len(),
            value == digits_value(s@.take(i as int)),
            value <= max,
            forall|j: int| 0 <= j < i ==> is_digit(#[trigger] s@[j]),
        decreases s@.len() - i,
    {
        let c = s[i];
        if !('0' <= c && c <= '9') {
            assert(!is_digit(s@[i as int]));
            return None;
        }
        let d: u64 = c as u64 - '0' as u64;
        assert(s@.take(i as int + 1).drop_last() =~= s@.take(i as int));
        assert(digits_value(s@.take(i as int + 1)) == value * 10 + d);
        let next: u128 = (value as u128) * 10 + d as u128;
        if next > max as u128 {
            proof {
                lemma_digits_grow(s@, i as int + 1);
            }
            return None;
        }
        value = next as u64;
        i = i + 1;
    }
    assert(s@.take(s@.len() as int) =~= s@);
    Some(value)
}

/// More digits never make a smaller number.
proof fn lemma_digits_grow(s: Seq<char>, n: int)
    requires
        0 <= n <= s.len(),
    ensures
        digits_value(s.take(n)) <= digits_value(s),
    decreases s.len() - n,
{
    if n < s.len() {
        lemma_digits_grow(s, n + 1);
        assert(s.take(n + 1).drop_last() =~= s.take(n));
        assert(digits_value(s.take(n)) <= digits_value(s.take(n)) * 10);
    } else {
        assert(s.take(n) =~= s);
    }
}

/// Reads an unsigned decimal number of at most `max`.
pub fn read_unsigned(s: &[char], max: u64) -> (r: Option<u64>)
    ensures
        match r {
            Some(v) => unsigned_number(s@, max as nat) == Some(v as nat),
            None => unsigned_number(s@, max as nat) is None,
        },
{
    if s.len() > 0 && s[0] == '+' {
        assert(s@.skip(1) =~= s@.subrange(1, s@.len() as int));
        read_digits(slice_subrange(s, 1, s.len()), max)
    } else {
        read_digits(s, max)
    }
}

/// Reads a signed decimal number of 32 bits.
pub fn read_i32(s: &[char]) -> (r: Option<i32>)
    ensures
        match r {
            Some(v) => signed_number(s@) == Some(v as int),
            None => signed_number(s@) is None,
        },
{
    if s.len() > 0 && s[0] == '-' {
        assert(s@.skip(1) =~= s@.subrange(1, s@.len() as int));
        match read_digits(slice_subrange(s, 1, s.len()), 0x8000_0000) {
            Some(v) => Some((-(v as i64)) as i32),
            None => None,
        }
    } else {
        match read_unsigned(s, 0x7fff_ffff) {
            Some(v) => Some(v as i32),
            None => None,
        }
    }
}

/// Whether `s` starts with `key`.
pub fn starts_with(s: &[char], key: &[char]) -> (b: bool)
    ensures
        b == key@.is_prefix_of(s@),
{
    if key.len() > s.len() {
        return false;
    }
    let mut i: usize = 0;
    while i < key.len()
        invariant
            i <= key@.len() <= s@.len(),
            forall|j: int| 0 <= j < i ==> s@[j] == #[trigger] key@[j],
        decreases key@.len() - i,
    {
        if s[i] != key[i] {
            assert(s@.subrange(0, key@.len() as int)[i as int] != key@[i as int]);
            return false;
        }
        i = i + 1;
    }
    assert(key@ =~= s@.subrange(0, key@.len() as int));
    true
}

/// What follows `key` on the first line of `s` that starts with `key`.
pub fn field<'a>(s: &'a [char], key: &[char]) -> (r: Option<&'a [char]>)
    ensures
        match r {
            Some(v) => field_of(s@, key@) == Some(v@),
            None => field_of(s@, key@) is None,
        },
{
    let mut from: usize = 0;
    assert(s@.skip(0) =~= s@);
    loop
        invariant
            from <= s@.len(),
            field_of(s@.skip(from as int), key@) == field_of(s@, key@),
        decreases s@.len() - from,
    {
        let rest = slice_subrange(s, from, s.len());
        assert(rest@ =~= s@.skip(from as int));
        let n: usize = position(rest, '\n');
        proof {
            lemma_find_char(rest@, '\n');
        }
        let line = slice_subrange(rest, 0, n);
        assert(line@ =~= rest@.take(n as int));
        if starts_with(line, key) {
            assert(line@.skip(key@.len() as int) =~= line@.subrange(
                key@.len() as int,
                line@.len() as int,
            ));
            return Some(slice_subrange(line, key.len(), line.len()));
        }
        if n >= rest.len() {
            return None;
        }
        assert(rest@.skip(n as int + 1) =~= s@.skip(from + n + 1));
        from = from + n + 1;
    }
}

/// The text of one digit.
fn digit_text(d: u64) -> (s: &'static str)
    requires
        d < 10,
    ensures
        s@ == decimal(d as nat),
{
    proof {
        reveal_strlit("0");
        reveal_strlit("1");
        reveal_strlit("2");
        reveal_strlit("3");
        reveal_strlit("4");
        reveal_strlit("5");
        reveal_strlit("6");
        reveal_strlit("7");
        reveal_strlit("8");
        reveal_strlit("9");
    }
    let s = match d {
        0 => "0",
        1 => "1",
        2 => "2",
        3 => "3",
        4 => "4",
        5 => "5",
        6 => "6",
        7 => "7",
        8 => "8",
        _ => "9",
    };
    assert(s@ =~= decimal(d as nat));
    s
}

/// The digits that write `n` in base ten.
pub fn decimal_text(n: u64) -> (s: String)
    ensures
        s@ == decimal(n as nat),
    decreases n,
{
    if n < 10 {
        digit_text(n).to_owned()
    } else {
        let mut s = decimal_text(n / 10);
        let ghost head = s@;
        s.append(digit_text(n % 10));
        assert(s@ =~= head.push((('0' as u32) + n % 10) as char)) by {
            assert(decimal((n % 10) as nat) =~= seq![(('0' as u32) + n % 10) as char]);
        }
        s
    }
}

/// The parts of `text` between the characters `c`.
pub fn split_text(text: &str, c: char) -> (parts: Vec<String>)
    ensures
        views(parts@) == split_by(text@, c),
{
    let chars = chars_of(text);
    let s = chars.as_slice();
    let mut parts: Vec<String> = Vec::new();
    let mut from: usize = 0;
    proof {
        assert(s@.skip(0) =~= s@);
        assert(views(parts@) + split_by(s@, c) =~= split_by(s@, c));
    }
    loop
        invariant
            from <= s@.len(),
            s@ == text@,
            views(parts@) + split_by(s@.skip(from as int), c) == split_by(s@, c),
        decreases s@.len() - from,
    {
        let rest = slice_subrange(s, from, s.len());
        assert(rest@ =~= s@.skip(from as int));
        let n: usize = position(rest, c);
        proof {
            lemma_find_char(rest@, c);
        }
        let ghost before = views(parts@);
        let part = text.substring_char(from, from + n);
        assert(part@ =~= rest@.take(n as int));
        parts.push(part.to_owned());
        assert(views(parts@) =~= before.push(part@));
        if n >= rest.len() {
            assert(part@ =~= rest@);
            assert(views(parts@) =~= split_by(s@, c));
            return parts;
        }
        proof {
            assert(rest@.skip(n as int + 1) =~= s@.skip(from + n + 1));
            assert(views(parts@) + split_by(s@.skip(from + n + 1), c) =~= before + split_by(
                rest@,
                c,
            ));
        }
        from = from + n + 1;
    }
}

/// Every character of `s` is whitespace.
pub open spec fn all_white(s: Seq<char>) -> bool {
    forall|i: int| 0 <= i < s.len() ==> is_white(#[trigger] s[i])
}

/// Trimming at the start cuts whitespace off, and stops at the first character
/// that is none.
proof fn lemma_trim_start(s: Seq<char>) -> (a: Seq<char>)
    ensures
        s == a + trim_start(s),
        all_white(a),
        trim_start(s).len() > 0 ==> !is_white(trim_start(s)[0]),
    decreases s.len(),
{
    if s.len() > 0 && is_white(s[0]) {
        let b = lemma_trim_start(s.skip(1));
        let a = seq![s[0]] + b;
        assert(s =~= seq![s[0]] + s.skip(1));
        assert(s =~= a + trim_start(s));
        assert forall|i: int| 0 <= i < a.len() implies is_white(#[trigger] a[i]) by {
            if i > 0 {
                assert(a[i] == b[i - 1]);
            }
        }
        a
    } else {
        assert(s =~= Seq::<char>::empty() + s);
        Seq::empty()
    }
}

/// Trimming at the end cuts whitespace off, and stops at the last character
/// that is none.
proof fn lemma_trim_end(s: Seq<char>) -> (b: Seq<char>)
    ensures
        s == trim_end(s) + b,
        all_white(b),
        trim_end(s).len() > 0 ==> !is_white(trim_end(s).last()),
        trim_end(s).len() > 0 ==> trim_end(s)[0] == s[0],
    decreases s.len(),
{
    if s.len() > 0 && is_white(s.last()) {
        let a = lemma_trim_end(s.drop_last());
        let b = a.push(s.last());
        assert(s =~= s.drop_last().push(s.last()));
        assert(s =~= trim_end(s) + b);
        b
    } else {
        assert(s =~= s + Seq::<char>::empty());
        Seq::empty()
    }
}

/// Trimming cuts whitespace off both ends and nothing else: what is left begins
/// and ends with something that is no whitespace.
pub proof fn law_trim(s: Seq<char>)
    ensures
        exists|a: Seq<char>, b: Seq<char>|
            all_white(a) && all_white(b) && s == #[trigger] (a + trimmed(s) + b),
        trimmed(s).len() > 0 ==> !is_white(trimmed(s)[0]) && !is_white(trimmed(s).last()),
{
    let a = lemma_trim_start(s);
    let b = lemma_trim_end(trim_start(s));
    assert(s =~= a + trimmed(s) + b);
}

/// A text that neither begins nor ends with whitespace is left as it is.
pub proof fn law_trim_keeps(s: Seq<char>)
    requires
        s.len() > 0 ==> !is_white(s[0]) && !is_white(s.last()),
    ensures
        trimmed(s) == s,
{
}

/// Blanks, tabs and line ends are whitespace; no visible ASCII character is.
pub proof fn law_white_ascii(c: char)
    ensures
        c == ' ' || c == '\t' || c == '\n' || c == '\r' ==> is_white(c),
        '!' <= c <= '~' ==> !is_white(c),
{
}

/// What is left without its markers begins with no marker, and a marker before
/// it makes no difference.
pub proof fn law_strip(s: Seq<char>)
    ensures
        !(without_0x(s).len() >= 2 && without_0x(s)[0] == '0' && without_0x(s)[1] == 'x'),
        without_0x(seq!['0', 'x'] + s) == without_0x(s),
        !(s.len() >= 2 && s[0] == '0' && s[1] == 'x') ==> without_0x(s) == s,
    decreases s.len(),
{
    assert((seq!['0', 'x'] + s).skip(2) =~= s);
    if s.len() >= 2 && s[0] == '0' && s[1] == 'x' {
        law_strip(s.skip(2));
    }
}

/// A number is written with digits that read back as it.
pub proof fn lemma_decimal(n: nat)
    ensures
        decimal(n).len() > 0,
        forall|i: int| 0 <= i < decimal(n).len() ==> is_digit(#[trigger] decimal(n)[i]),
        digits_value(decimal(n)) == n,
    decreases n,
{
    if n < 10 {
        assert(decimal(n).drop_last() =~= Seq::empty());
        assert(digits_value(decimal(n).drop_last()) == 0);
    } else {
        lemma_decimal(n / 10);
        assert(decimal(n).drop_last() =~= decimal(n / 10));
        assert forall|i: int| 0 <= i < decimal(n).len() implies is_digit(
            #[trigger] decimal(n)[i],
        ) by {
            if i < decimal(n).len() - 1 {
                assert(decimal(n)[i] == decimal(n / 10)[i]);
            }
        }
    }
}

/// What is written in decimal reads back, with or without a sign, exactly when
/// it is in range.
pub proof fn law_decimal_reads_back(n: nat, max: nat)
    ensures
        unsigned_number(decimal(n), max) == if n <= max {
            Some(n)
        } else {
            None
        },
        unsigned_number(seq!['+'] + decimal(n), max) == if n <= max {
            Some(n)
        } else {
            None
        },
        n <= 0x7fff_ffff ==> signed_number(decimal(n)) == Some(n as int),
        n > 0x7fff_ffff ==> signed_number(decimal(n)) is None,
        n <= 0x8000_0000 ==> signed_number(seq!['-'] + decimal(n)) == Some(-(n as int)),
        n > 0x8000_0000 ==> signed_number(seq!['-'] + decimal(n)) is None,
{
    lemma_decimal(n);
    assert(is_digit(decimal(n)[0]));
    assert((seq!['+'] + decimal(n)).skip(1) =~= decimal(n));
    assert((seq!['-'] + decimal(n)).skip(1) =~= decimal(n));
}

/// Only digits after an optional sign are a number, and one in range.
pub proof fn law_numbers_are_digits(s: Seq<char>, max: nat)
    ensures
        unsigned_number(s, max) matches Some(n) ==> {
            &&& n <= max
            &&& s.len() > 0
            &&& forall|i: int|
                0 <= i < s.len() ==> '0' <= #[trigger] s[i] <= '9' || (i == 0 && s[i] == '+')
            &&& s[0] == '+' ==> s.len() > 1
        },
{
    if unsigned_number(s, max) is Some && s[0] == '+' {
        assert forall|i: int| 0 <= i < s.len() implies '0' <= #[trigger] s[i] <= '9' || (i == 0
            && s[i] == '+') by {
            if i > 0 {
                assert(is_digit(s.skip(1)[i - 1]));
            }
        }
    } else if unsigned_number(s, max) is Some {
        assert forall|i: int| 0 <= i < s.len() implies '0' <= #[trigger] s[i] <= '9' || (i == 0
            && s[i] == '+') by {
            assert(is_digit(s[i]));
        }
    }
}

/// A line of `s` begins at `i`.
pub open spec fn line_start(s: Seq<char>, i: int) -> bool {
    0 <= i <= s.len() && (i == 0 || s[i - 1] == '\n')
}

/// `key` stands in `s` at `i`.
pub open spec fn stands_at(s: Seq<char>, key: Seq<char>, i: int) -> bool {
    0 <= i && i + key.len() <= s.len() && s.subrange(i, i + key.len()) == key
}

/// The value of a key is what follows it, up to the end of its line, where it
/// first stands at the start of a line; there is none if no line starts with
/// the key.
pub proof fn law_field(s: Seq<char>, key: Seq<char>) -> (at: int)
    requires
        key.len() > 0,
        forall|i: int| 0 <= i < key.len() ==> #[trigger] key[i] != '\n',
    ensures
        match field_of(s, key) {
            Some(v) => {
                &&& line_start(s, at)
                &&& stands_at(s, key + v, at)
                &&& forall|i: int| 0 <= i < v.len() ==> #[trigger] v[i] != '\n'
                &&& at + key.len() + v.len() == s.len() || s[at + key.len() + v.len()] == '\n'
                &&& forall|i: int|
                    0 <= i < at && #[trigger] line_start(s, i) ==> !stands_at(s, key, i)
            },
            None => forall|i: int| #[trigger] line_start(s, i) ==> !stands_at(s, key, i),
        },
    decreases s.len(),
{
    let n = find_char(s, '\n') as int;
    lemma_find_char(s, '\n');
    let line = s.take(n);
    if key.is_prefix_of(line) {
        let v = line.skip(key.len() as int);
        assert(s.subrange(0, line.len() as int) =~= line);
        assert(key + v =~= line);
        assert forall|i: int| 0 <= i < v.len() implies #[trigger] v[i] != '\n' by {
            assert(v[i] == s[i + key.len()]);
        }
        0
    } else {
        assert(!stands_at(s, key, 0)) by {
            if stands_at(s, key, 0) {
                if key.len() <= n {
                    assert(line.subrange(0, key.len() as int) =~= s.subrange(
                        0,
                        key.len() as int,
                    ));
                } else {
                    assert(s.subrange(0, key.len() as int)[n] == key[n]);
                }
            }
        }
        assert forall|i: int| 0 < i <= n && i <= s.len() implies !line_start(s, i) by {
            assert(s[i - 1] != '\n');
        }
        if n >= s.len() {
            assert forall|i: int| #[trigger] line_start(s, i) implies !stands_at(s, key, i) by {
                if i > 0 {
                    assert(!line_start(s, i));
                }
            }
            0
        } else {
            let rest = s.skip(n + 1);
            let at = law_field(rest, key);
            assert forall|i: int| n < i implies (#[trigger] line_start(s, i) <==> line_start(
                rest,
                i - n - 1,
            )) by {
                if n + 1 < i <= s.len() {
                    assert(rest[i - n - 2] == s[i - 1]);
                }
            }
            assert forall|i: int| n < i implies (#[trigger] stands_at(s, key, i) <==> stands_at(
                rest,
                key,
                i - n - 1,
            )) by {
                if i + key.len() <= s.len() {
                    assert(s.subrange(i, i + key.len()) =~= rest.subrange(
                        i - n - 1,
                        i - n - 1 + key.len(),
                    ));
                }
            }
            match field_of(rest, key) {
                Some(v) => {
                    let to = at + n + 1;
                    assert(s.subrange(to, to + (key + v).len()) =~= rest.subrange(
                        at,
                        at + (key + v).len(),
                    ));
                    assert(line_start(s, to));
                    if at + key.len() + v.len() < rest.len() {
                        assert(rest[at + key.len() + v.len()] == s[to + key.len() + v.len()]);
                    }
                    assert forall|i: int| 0 <= i < to && #[trigger] line_start(s, i) implies
                        !stands_at(s, key, i) by {
                        if i > n {
                            assert(line_start(rest, i - n - 1));
                        } else if i > 0 {
                            assert(!line_start(s, i));
                        }
                    }
                },
                None => {
                    assert forall|i: int| #[trigger] line_start(s, i) implies !stands_at(
                        s,
                        key,
                        i,
                    ) by {
                        if i > n {
                            assert(line_start(rest, i - n - 1));
                        } else if i > 0 {
                            assert(!line_start(s, i));
                        }
                    }
                },
            }
            at + n + 1
        }
    }
}

/// The parts, with `c` between each two.
pub open spec fn joined_by(parts: Seq<Seq<char>>, c: char) -> Seq<char>
    decreases parts.len(),
{
    if parts.len() == 0 {
        Seq::empty()
    } else if parts.len() == 1 {
        parts[0]
    } else {
        parts[0] + seq![c] + joined_by(parts.skip(1), c)
    }
}

/// Splitting is undone by joining, and no part holds the separator.
pub proof fn law_split_by(s: Seq<char>, c: char)
    ensures
        split_by(s, c).len() > 0,
        joined_by(split_by(s, c), c) == s,
        forall|i: int, j: int|
            0 <= i < split_by(s, c).len() && 0 <= j < split_by(s, c)[i].len()
                ==> #[trigger] split_by(s, c)[i][j] != c,
    decreases s.len(),
{
    let n = find_char(s, c) as int;
    lemma_find_char(s, c);
    if n < s.len() {
        let rest = s.skip(n + 1);
        law_split_by(rest, c);
        let parts = split_by(s, c);
        assert(parts.skip(1) =~= split_by(rest, c));
        assert(s =~= s.take(n) + seq![c] + rest);
        assert forall|i: int, j: int|
            0 <= i < parts.len() && 0 <= j < parts[i].len() implies #[trigger] parts[i][j]
            != c by {
            if i > 0 {
                assert(parts[i] == split_by(rest, c)[i - 1]);
                assert(split_by(rest, c)[i - 1][j] != c);
            }
        }
    }
}

/// Digits are read from the left, in base ten, as far as the number is in range;
/// a sign before them is allowed, and for a signed number a minus turns it round.
pub proof fn law_digits_are_read(s: Seq<char>, c: char, max: nat)
    requires
        '0' <= c <= '9',
    ensures
        unsigned_number(seq![c], max) == if c as int - 48 <= max {
            Some((c as int - 48) as nat)
        } else {
            None
        },
        unsigned_number(s, max) matches Some(n) ==> unsigned_number(s.push(c), max) == if 10 * n + (
        c as int - 48) <= max {
            Some((10 * n + (c as int - 48)) as nat)
        } else {
            None
        },
        s.len() > 0 && s[0] != '+' && s[0] != '-' ==> {
            &&& unsigned_number(seq!['+'] + s, max) == unsigned_number(s, max)
            &&& signed_number(s) == match unsigned_number(s, 0x7fff_ffff) {
                Some(n) => Some(n as int),
                None => None,
            }
            &&& signed_number(seq!['+'] + s) == signed_number(s)
            &&& signed_number(seq!['-'] + s) == match unsigned_number(s, 0x8000_0000) {
                Some(n) => Some(-(n as int)),
                None => None,
            }
        },
{
    let one = seq![c];
    assert(one.drop_last() =~= Seq::empty());
    assert(digits_value(one.drop_last()) == 0);
    assert(digits_value(one) == c as int - 48);
    if unsigned_number(s, max) is Some {
        let d = if s[0] == '+' {
            s.skip(1)
        } else {
            s
        };
        assert(d.push(c).drop_last() =~= d);
        assert(digits_value(d.push(c)) == 10 * digits_value(d) + (c as int - 48));
        assert forall|i: int| 0 <= i < d.push(c).len() implies is_digit(
            #[trigger] d.push(c)[i],
        ) by {
            if i < d.len() {
                assert(is_digit(d[i]));
            }
        }
        if s[0] == '+' {
            assert(s.push(c).skip(1) =~= d.push(c));
        }
    }
    assert((seq!['+'] + s).skip(1) =~= s);
    assert((seq!['-'] + s).skip(1) =~= s);
}

/// Numbers are written without leading zeros.
pub proof fn law_decimal_is_short(n: nat)
    ensures
        n == 0 ==> decimal(n) == seq!['0'],
        n > 0 ==> decimal(n)[0] != '0',
    decreases n,
{
    if n >= 10 {
        law_decimal_is_short(n / 10);
        lemma_decimal(n / 10);
        assert(decimal(n)[0] == decimal(n / 10)[0]);
    }
}

} // verus!
