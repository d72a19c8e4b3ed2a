//! Characters and strings: the small vocabulary the parsers and labels share.
use vstd::prelude::*;

verus! {

/// `String::push` appends one character.
pub assume_specification[ String::push ](s: &mut String, ch: char)
    ensures
        final(s)@ == old(s)@.push(ch),
;

/// The characters of a string.
pub fn chars_of(s: &str) -> (v: Vec<char>)
    ensures
        v@ == s@,
{
    let mut v: Vec<char> = Vec::new();
    for c in it: s.chars()
        invariant
            it.seq() == s@,
            v@ == it.seq().take(it.index() as int),
    {
        v.push(c);
    }
    assert(s@.take(s@.len() as int) =~= s@);
    v
}

/// A string of the given characters.
pub fn string_of(v: &[char]) -> (s: String)
    ensures
        s@ == v@,
{
    let mut s = String::new();
    for i in 0..v.len()
        invariant
            s@ == v@.take(i as int),
    {
        s.push(v[i]);
    }
    assert(v@.take(v@.len() as int) =~= v@);
    s
}

/// The character of a decimal digit.
pub open spec fn digit_char(d: nat) -> char {
    (48 + d) as char
}

/// The decimal numeral of a number, without leading zeros.
pub open spec fn decimal(n: nat) -> Seq<char>
    decreases n,
{
    if n < 10 {
        seq![digit_char(n)]
    } else {
        decimal(n / 10).push(digit_char(n % 10))
    }
}

fn digit_to_char(d: u8) -> (c: char)
    requires
        d < 10,
    ensures
        c == digit_char(d as nat),
{
    (48u8 + d) as char
}

/// Appends the decimal numeral of `n`.
pub fn push_decimal(s: &mut String, n: u64)
    ensures
        final(s)@ == old(s)@ + decimal(n as nat),
    decreases n,
{
    if n >= 10 {
        push_decimal(s, n / 10);
    }
    s.push(digit_to_char((n % 10) as u8));
    assert(s@ =~= old(s)@ + decimal(n as nat));
}

/// The lower-case form of an ASCII letter; every other character stays.
pub open spec fn ascii_lower(c: char) -> char {
    if 'A' <= c <= 'Z' {
        (c as u32 + 32) as char
    } else {
        c
    }
}

/// The upper-case form of an ASCII letter; every other character stays.
pub open spec fn ascii_upper(c: char) -> char {
    if 'a' <= c <= 'z' {
        (c as u32 - 32) as char
    } else {
        c
    }
}

pub open spec fn lower(s: Seq<char>) -> Seq<char> {
    s.map_values(|c: char| ascii_lower(c))
}

pub open spec fn upper(s: Seq<char>) -> Seq<char> {
    s.map_values(|c: char| ascii_upper(c))
}

pub fn to_lower(c: char) -> (r: char)
    ensures
        r == ascii_lower(c),
{
    if 'A' <= c && c <= 'Z' {
        ((c as u32 + 32) as u8) as char
    } else {
        c
    }
}

pub fn to_upper(c: char) -> (r: char)
    ensures
        r == ascii_upper(c),
{
    if 'a' <= c && c <= 'z' {
        ((c as u32 - 32) as u8) as char
    } else {
        c
    }
}

pub fn lower_of(s: &[char]) -> (v: Vec<char>)
    ensures
        v@ == lower(s@),
{
    let mut v: Vec<char> = Vec::new();
    for i in 0..s.len()
        invariant
            v@ == lower(s@.take(i as int)),
    {
        v.push(to_lower(s[i]));
        assert(lower(s@.take(i + 1)) =~= lower(s@.take(i as int)).push(ascii_lower(s@[i as int])));
    }
    assert(s@.take(s@.len() as int) =~= s@);
    v
}

pub fn upper_of(s: &[char]) -> (v: Vec<char>)
    ensures
        v@ == upper(s@),
{
    let mut v: Vec<char> = Vec::new();
    for i in 0..s.len()
        invariant
            v@ == upper(s@.take(i as int)),
    {
        v.push(to_upper(s[i]));
        assert(upper(s@.take(i + 1)) =~= upper(s@.take(i as int)).push(ascii_upper(s@[i as int])));
    }
    assert(s@.take(s@.len() as int) =~= s@);
    v
}

/// Whether two runs of characters are the same.
pub fn chars_eq(a: &[char], b: &[char]) -> (r: bool)
    ensures
        r == (a@ == b@),
{
    if a.len() != b.len() {
        return false;
    }
    for i in 0..a.len()
        invariant
            a@.len() == b@.len(),
            forall|j: int| 0 <= j < i ==> a@[j] == b@[j],
    {
        if a[i] != b[i] {
            return false;
        }
    }
    assert(a@ =~= b@);
    true
}

/// `n` stands in `h` at place `i`.
pub open spec fn occurs_at(h: Seq<char>, n: Seq<char>, i: int) -> bool {
    0 <= i && i + n.len() <= h.len() && h.subrange(i, i + n.len()) == n
}

/// `n` stands somewhere in `h`.
pub open spec fn occurs(h: Seq<char>, n: Seq<char>) -> bool {
    exists|i: int| occurs_at(h, n, i)
}

/// Whether `h` holds `n` as an unbroken run.
pub fn contains_run(h: &[char], n: &[char]) -> (r: bool)
    ensures
        r == occurs(h@, n@),
{
    if n.len() > h.len() {
        return false;
    }
    let last: usize = h.len() - n.len();
    let mut i: usize = 0;
    loop
        invariant
            last == h@.len() - n@.len(),
            h@.len() <= usize::MAX,
            i <= last,
            forall|j: int| 0 <= j < i ==> !occurs_at(h@, n@, j),
        decreases last - i,
    {
        let part = vstd::slice::slice_subrange(h, i, i + n.len());
        if chars_eq(part, n) {
            assert(occurs_at(h@, n@, i as int));
            return true;
        }
        assert(!occurs_at(h@, n@, i as int));
        if i == last {
            return false;
        }
        i = i + 1;
    }
}

/// Whether the characters spell the given word.
pub fn spells(a: &[char], word: &str) -> (r: bool)
    ensures
        r == (a@ == word@),
{
    let w = chars_of(word);
    chars_eq(a, w.as_slice())
}

/// White space, as Unicode lists it.
pub open spec fn is_space(c: char) -> bool {
    let u = c as u32;
    ||| 0x09 <= u <= 0x0d
    ||| u == 0x20
    ||| u == 0x85
    ||| u == 0xa0
    ||| u == 0x1680
    ||| 0x2000 <= u <= 0x200a
    ||| u == 0x2028
    ||| u == 0x2029
    ||| u == 0x202f
    ||| u == 0x205f
    ||| u == 0x3000
}

pub fn char_is_space(c: char) -> (r: bool)
    ensures
        r == is_space(c),
{
    let u: u32 = c as u32;
    (0x09 <= u && u <= 0x0d) || u == 0x20 || u == 0x85 || u == 0xa0 || u == 0x1680 || (0x2000 <= u
        && u <= 0x200a) || u == 0x2028 || u == 0x2029 || u == 0x202f || u == 0x205f || u == 0x3000
}

/// Without the white space in front.
pub open spec fn trim_start(s: Seq<char>) -> Seq<char>
    decreases s.len(),
{
    if s.len() > 0 && is_space(s[0]) {
        trim_start(s.skip(1))
    } else {
        s
    }
}

/// Without the white space behind.
pub open spec fn trim_end(s: Seq<char>) -> Seq<char>
    decreases s.len(),
{
    if s.len() > 0 && is_space(s.last()) {
        trim_end(s.drop_last())
    } else {
        s
    }
}

pub open spec fn trimmed(s: Seq<char>) -> Seq<char> {
    trim_end(trim_start(s))
}

pub fn trim_start_of(s: &[char]) -> (r: &[char])
    ensures
        r@ == trim_start(s@),
{
    let mut i: usize = 0;
    assert(s@.skip(0) =~= s@);
    while i < s.len() && char_is_space(s[i])
        invariant
            i <= s@.len(),
            trim_start(s@) == trim_start(s@.skip(i as int)),
        decreases s@.len() - i,
    {
        assert(s@.skip(i as int)[0] == s@[i as int]);
        assert(s@.skip(i as int).skip(1) =~= s@.skip(i + 1));
        i = i + 1;
    }
    let r = vstd::slice::slice_subrange(s, i, s.len());
    assert(r@ =~= s@.skip(i as int));
    proof {
        if i < s@.len() {
            assert(s@.skip(i as int)[0] == s@[i as int]);
        }
    }
    r
}

pub fn trim_end_of(s: &[char]) -> (r: &[char])
    ensures
        r@ == trim_end(s@),
{
    let mut n: usize = s.len();
    assert(s@.take(n as int) =~= s@);
    while n > 0 && char_is_space(s[n - 1])
        invariant
            n <= s@.len(),
            trim_end(s@) == trim_end(s@.take(n as int)),
        decreases n,
    {
        assert(s@.take(n as int).last() == s@[n - 1]);
        assert(s@.take(n as int).drop_last() =~= s@.take(n - 1));
        n = n - 1;
    }
    let r = vstd::slice::slice_subrange(s, 0, n);
    assert(r@ =~= s@.take(n as int));
    proof {
        if n > 0 {
            assert(s@.take(n as int).last() == s@[n - 1]);
        }
    }
    r
}

pub fn trim_of(s: &[char]) -> (r: &[char])
    ensures
        r@ == trimmed(s@),
{
    trim_end_of(trim_start_of(s))
}

/// The place of the first character that is `c`, or the length.
pub open spec fn first_of(s: Seq<char>, c: char) -> int
    decreases s.len(),
{
    if s.len() == 0 {
        0
    } else if s[0] == c {
        0
    } else {
        1 + first_of(s.skip(1), c)
    }
}

pub proof fn lemma_first_of(s: Seq<char>, c: char, k: int)
    requires
        0 <= k <= s.len(),
        forall|i: int| 0 <= i < k ==> s[i] != c,
        k < s.len() ==> s[k] == c,
    ensures
        first_of(s, c) == k,
    decreases s.len(),
{
    if s.len() > 0 && s[0] != c {
        lemma_first_of(s.skip(1), c, k - 1);
    }
}

pub fn find_char(s: &[char], c: char) -> (k: usize)
    ensures
        k == first_of(s@, c),
        k <= s@.len(),
        k < s@.len() ==> s@[k as int] == c,
        forall|i: int| 0 <= i < k ==> s@[i] != c,
{
    let mut k: usize = 0;
    while k < s.len() && s[k] != c
        invariant
            k <= s@.len(),
            forall|i: int| 0 <= i < k ==> s@[i] != c,
        decreases s@.len() - k,
    {
        k = k + 1;
    }
    proof {
        lemma_first_of(s@, c, k as int);
    }
    k
}

pub open spec fn is_digit(c: char) -> bool {
    '0' <= c <= '9'
}

pub open spec fn all_digits(s: Seq<char>) -> bool {
    forall|i: int| 0 <= i < s.len() ==> is_digit(#[trigger] s[i])
}

/// The number that decimal digits stand for.
pub open spec fn digits_value(s: Seq<char>) -> nat
    decreases s.len(),
{
    if s.len() == 0 {
        0
    } else {
        digits_value(s.drop_last()) * 10 + (s.last() as nat - 48) as nat
    }
}

/// A decimal numeral is made of digits, and they stand for the number.
pub(crate) proof fn lemma_decimal_value(n: nat)
    ensures
        all_digits(decimal(n)),
        decimal(n).len() >= 1,
        digits_value(decimal(n)) == n,
    decreases n,
{
    if n >= 10 {
        lemma_decimal_value(n / 10);
        let d = decimal(n / 10);
        assert(decimal(n).drop_last() =~= d);
        assert forall|i: int| 0 <= i < decimal(n).len() implies is_digit(
            #[trigger] decimal(n)[i],
        ) by {
            if i < d.len() {
                assert(decimal(n)[i] == d[i]);
            }
        }
    } else {
        assert(decimal(n).drop_last() =~= Seq::empty());
        assert(digits_value(Seq::<char>::empty()) == 0);
    }
}

/// Zeros in front of a numeral change nothing.
pub(crate) proof fn lemma_padded_value(n: nat, width: nat)
    ensures
        all_digits(padded(n, width)),
        padded(n, width).len() >= 1,
        digits_value(padded(n, width)) == n,
{
    lemma_decimal_value(n);
    let d = decimal(n);
    if d.len() < width {
        lemma_zeros_in_front((width - d.len()) as nat, d);
    }
}

proof fn lemma_zeros_in_front(k: nat, s: Seq<char>)
    requires
        all_digits(s),
    ensures
        all_digits(Seq::new(k, |i: int| '0') + s),
        digits_value(Seq::new(k, |i: int| '0') + s) == digits_value(s),
    decreases s.len(), k,
{
    let z = Seq::new(k, |i: int| '0');
    if s.len() > 0 {
        let front = s.drop_last();
        assert forall|i: int| 0 <= i < front.len() implies is_digit(#[trigger] front[i]) by {
            assert(front[i] == s[i]);
        }
        lemma_zeros_in_front(k, front);
        assert((z + s).drop_last() =~= z + front);
        assert((z + s).last() == s.last());
        assert(is_digit(s[s.len() - 1]));
        assert forall|i: int| 0 <= i < (z + s).len() implies is_digit(#[trigger] (z + s)[i]) by {
            if i >= k {
                assert((z + s)[i] == s[i - k]);
            }
        }
    } else if k > 0 {
        lemma_zeros_in_front((k - 1) as nat, s);
        assert((z + s).drop_last() =~= Seq::new((k - 1) as nat, |i: int| '0') + s);
    } else {
        assert(z + s =~= s);
    }
}

/// A numeral without its plus sign, if it has one and more behind it.
pub open spec fn unsigned_part(s: Seq<char>) -> Seq<char> {
    if s.len() > 1 && s[0] == '+' {
        s.skip(1)
    } else {
        s
    }
}

/// The number that a numeral stands for: digits, perhaps behind a plus sign, whose value
/// is at most `max`.
pub open spec fn numeral(s: Seq<char>, max: nat) -> Option<nat> {
    let d = unsigned_part(s);
    if d.len() > 0 && all_digits(d) && digits_value(d) <= max {
        Some(digits_value(d))
    } else {
        None
    }
}

pub fn parse_numeral(s: &[char], max: u64) -> (r: Option<u64>)
    ensures
        match r {
            Some(n) => numeral(s@, max as nat) == Some(n as nat),
            None => numeral(s@, max as nat) is None,
        },
{
    let start: usize = if s.len() > 1 && s[0] == '+' {
        1
    } else {
        0
    };
    let ghost d = s@.skip(start as int);
    assert(d =~= unsigned_part(s@));
    if s.len() == 0 {
        return None;
    }
    let mut over = false;
    let mut acc: u64 = 0;
    let mut i: usize = start;
    assert(d.take(0) =~= Seq::empty());
    while i < s.len()
        invariant
            start <= i <= s@.len(),
            start < s@.len(),
            d == s@.skip(start as int),
            d == unsigned_part(s@),
            forall|j: int| 0 <= j < i - start ==> is_digit(#[trigger] d[j]),
            !over ==> acc == digits_value(d.take(i - start)) && acc <= max,
            over ==> digits_value(d.take(i - start)) > max,
        decreases s@.len() - i,
    {
        let c: char = s[i];
        let ghost k = i - start;
        assert(d[k] == c);
        if !('0' <= c && c <= '9') {
            assert(!is_digit(d[k]));
            return None;
        }
        let v: u64 = (c as u32 - 48) as u64;
        assert(d.take(k + 1).drop_last() =~= d.take(k));
        if !over {
            if acc as u128 * 10 + v as u128 > max as u128 {
                over = true;
            } else {
                acc = acc * 10 + v;
            }
        }
        i = i + 1;
    }
    assert(d.take(d.len() as int) =~= d);
    if over {
        None
    } else {
        Some(acc)
    }
}

/// The first four digits in a row, as a year.
pub open spec fn first_year(s: Seq<char>) -> Option<nat>
    decreases s.len(),
{
    if s.len() < 4 {
        None
    } else if all_digits(s.take(4)) {
        Some(digits_value(s.take(4)))
    } else {
        first_year(s.skip(1))
    }
}

pub fn find_year(s: &[char]) -> (r: Option<i32>)
    ensures
        match r {
            Some(y) => y >= 0 && first_year(s@) == Some(y as nat),
            None => first_year(s@) is None,
        },
{
    let mut i: usize = 0;
    assert(s@.skip(0) =~= s@);
    while s.len() - i >= 4
        invariant
            i <= s@.len(),
            first_year(s@) == first_year(s@.skip(i as int)),
        decreases s@.len() - i,
    {
        let four = vstd::slice::slice_subrange(s, i, i + 4);
        assert(four@ =~= s@.skip(i as int).take(4));
        let mut k: usize = 0;
        let mut v: i32 = 0;
        assert(four@.take(0) =~= Seq::empty());
        while k < 4 && '0' <= four[k] && four[k] <= '9'
            invariant
                k <= 4,
                four@.len() == 4,
                forall|j: int| 0 <= j < k ==> is_digit(#[trigger] four@[j]),
                v == digits_value(four@.take(k as int)),
                k == 0 ==> v == 0,
                k == 1 ==> v < 10,
                k == 2 ==> v < 100,
                k == 3 ==> v < 1000,
            decreases 4 - k,
        {
            assert(four@.take(k + 1).drop_last() =~= four@.take(k as int));
            v = v * 10 + (four[k] as u32 - 48) as i32;
            k = k + 1;
        }
        if k == 4 {
            assert(four@.take(4) =~= four@);
            return Some(v);
        }
        assert(!is_digit(four@[k as int]));
        assert(s@.skip(i as int).skip(1) =~= s@.skip(i + 1));
        i = i + 1;
    }
    None
}

/// The decimal numeral of `n`, with zeros in front up to `width` digits.
pub open spec fn padded(n: nat, width: nat) -> Seq<char> {
    let d = decimal(n);
    if d.len() >= width {
        d
    } else {
        Seq::new((width - d.len()) as nat, |i: int| '0') + d
    }
}

/// The number of digits of a number.
fn count_digits(n: u64) -> (k: usize)
    ensures
        k == decimal(n as nat).len(),
        1 <= k <= 20,
    decreases n,
{
    if n < 10 {
        return 1;
    }
    proof {
        lemma_decimal_len(n as nat, 20);
        lemma_decimal_len((n / 10) as nat, 19);
    }
    count_digits(n / 10) + 1
}

spec fn power_of_ten(k: nat) -> nat
    decreases k,
{
    if k == 0 {
        1
    } else {
        10 * power_of_ten((k - 1) as nat)
    }
}

proof fn lemma_decimal_len(n: nat, k: nat)
    requires
        k >= 1,
        n < power_of_ten(k) || (k == 20 && n <= u64::MAX) || (k == 19 && n <= u64::MAX / 10),
    ensures
        decimal(n).len() <= k,
    decreases k,
{
    assert(power_of_ten(20) == 100000000000000000000) by {
        reveal_with_fuel(power_of_ten, 21);
    }
    assert(power_of_ten(19) == 10000000000000000000) by {
        reveal_with_fuel(power_of_ten, 20);
    }
    if n >= 10 {
        if k == 1 {
            assert(power_of_ten(1) == 10) by {
                reveal_with_fuel(power_of_ten, 2);
            }
        } else {
            assert(power_of_ten(k) == 10 * power_of_ten((k - 1) as nat));
            lemma_decimal_len(n / 10, (k - 1) as nat);
        }
    }
}

/// Appends `n` with zeros in front up to `width` digits.
pub fn push_padded(s: &mut String, n: u64, width: usize)
    ensures
        final(s)@ == old(s)@ + padded(n as nat, width as nat),
{
    let k: usize = count_digits(n);
    let ghost zeros = Seq::new(
        if width >= k {
            (width - k) as nat
        } else {
            0
        },
        |i: int| '0',
    );
    let mut i: usize = k;
    assert(zeros.take(0) =~= Seq::empty());
    while i < width
        invariant
            k <= i,
            k <= width ==> i <= width,
            zeros == Seq::new(
                if width >= k {
                    (width - k) as nat
                } else {
                    0
                },
                |i: int| '0',
            ),
            k > width ==> i == k,
            s@ == old(s)@ + zeros.take(i - k),
        decreases width - i,
    {
        s.push('0');
        assert(zeros.take(i + 1 - k) =~= zeros.take(i - k).push('0'));
        i = i + 1;
        assert(s@ =~= old(s)@ + zeros.take(i - k));
    }
    assert(zeros.take(zeros.len() as int) =~= zeros);
    push_decimal(s, n);
    assert(s@ =~= old(s)@ + padded(n as nat, width as nat));
}

/// The decimal numeral of a signed number.
pub open spec fn signed_decimal(n: int) -> Seq<char> {
    if n < 0 {
        seq!['-'] + decimal((-n) as nat)
    } else {
        decimal(n as nat)
    }
}

pub fn push_signed(s: &mut String, n: i64)
    ensures
        final(s)@ == old(s)@ + signed_decimal(n as int),
{
    if n < 0 {
        s.push('-');
        let m: u64 = (-(n as i128)) as u64;
        push_decimal(s, m);
        assert(s@ =~= old(s)@ + signed_decimal(n as int));
    } else {
        push_decimal(s, n as u64);
    }
}

/// The lines of a text: each ends at a line feed, or at the end of the text, and loses a
/// carriage return right before the line feed.
pub open spec fn lines(s: Seq<char>) -> Seq<Seq<char>>
    decreases s.len(),
{
    if s.len() == 0 {
        Seq::empty()
    } else {
        let k = first_of(s, '\n');
        if 0 <= k < s.len() {
            seq![without_cr(s.take(k))] + lines(s.skip(k + 1))
        } else {
            seq![s]
        }
    }
}

pub open spec fn without_cr(s: Seq<char>) -> Seq<char> {
    if s.len() > 0 && s.last() == '\r' {
        s.drop_last()
    } else {
        s
    }
}

/// The first line of a text and the place where the next one starts.
pub fn next_line(s: &[char], at: usize) -> (r: (&[char], usize))
    requires
        at < s@.len(),
    ensures
        at < r.1 <= s@.len(),
        lines(s@.skip(at as int)) == seq![r.0@] + lines(s@.skip(r.1 as int)),
{
    let rest = vstd::slice::slice_subrange(s, at, s.len());
    assert(rest@ =~= s@.skip(at as int));
    let k: usize = find_char(rest, '\n');
    if k < rest.len() {
        let next: usize = at + k + 1;
        assert(rest@.skip(k + 1) =~= s@.skip(next as int));
        let line = vstd::slice::slice_subrange(rest, 0, k);
        assert(line@ =~= rest@.take(k as int));
        if k > 0 && line[k - 1] == '\r' {
            let cut = vstd::slice::slice_subrange(line, 0, k - 1);
            assert(cut@ =~= without_cr(line@));
            (cut, next)
        } else {
            (line, next)
        }
    } else {
        assert(s@.skip(s@.len() as int) =~= Seq::empty());
        assert(seq![rest@] + Seq::<Seq<char>>::empty() =~= seq![rest@]);
        (rest, s.len())
    }
}

/// One text comes before another in the order of their characters; a beginning comes before
/// the whole.
pub open spec fn sorts_before(a: Seq<char>, b: Seq<char>) -> bool
    decreases a.len(),
{
    if b.len() == 0 {
        false
    } else if a.len() == 0 {
        true
    } else if a[0] != b[0] {
        a[0] < b[0]
    } else {
        sorts_before(a.skip(1), b.skip(1))
    }
}

pub fn sorts_first(a: &str, b: &str) -> (r: bool)
    ensures
        r == sorts_before(a@, b@),
{
    let x = chars_of(a);
    let y = chars_of(b);
    let mut i: usize = 0;
    assert(x@.skip(0) =~= x@);
    assert(y@.skip(0) =~= y@);
    while i < x.len() && i < y.len() && x[i] == y[i]
        invariant
            i <= x@.len(),
            i <= y@.len(),
            sorts_before(x@, y@) == sorts_before(x@.skip(i as int), y@.skip(i as int)),
        decreases x@.len() - i,
    {
        assert(x@.skip(i as int).skip(1) =~= x@.skip(i + 1));
        assert(y@.skip(i as int).skip(1) =~= y@.skip(i + 1));
        i = i + 1;
    }
    if i == y.len() {
        false
    } else if i == x.len() {
        true
    } else {
        x[i] < y[i]
    }
}

/// Of two different texts exactly one comes before the other.
pub(crate) proof fn lemma_sorts_total(a: Seq<char>, b: Seq<char>)
    ensures
        !(sorts_before(a, b) && sorts_before(b, a)),
        a != b ==> sorts_before(a, b) || sorts_before(b, a),
        !sorts_before(a, a),
    decreases a.len(),
{
    if a.len() > 0 && b.len() > 0 {
        lemma_sorts_total(a.skip(1), b.skip(1));
        if a != b && a[0] == b[0] && a.skip(1) == b.skip(1) {
            assert(a =~= seq![a[0]] + a.skip(1));
            assert(b =~= seq![b[0]] + b.skip(1));
        }
    } else if a.len() > 0 {
        lemma_sorts_total(a.skip(1), b);
    } else if b.len() == 0 {
        assert(a =~= b);
    }
}

pub(crate) proof fn lemma_sorts_chain(a: Seq<char>, b: Seq<char>, c: Seq<char>)
    ensures
        sorts_before(a, b) && sorts_before(b, c) ==> sorts_before(a, c),
    decreases a.len(),
{
    if a.len() > 0 && b.len() > 0 && c.len() > 0 {
        lemma_sorts_chain(a.skip(1), b.skip(1), c.skip(1));
    }
}

/// A number is written in tens: one digit stands for itself, and the numeral of a larger number
/// is that of its tens with the last digit behind it.
pub proof fn law_numerals_go_by_ten(s: &mut String, n: u64, u: (), t: &mut String, v: ())
    requires
        call_ensures(push_decimal, (s, n), u),
        call_ensures(push_decimal, (t, n / 10), v),
        old(s)@ == old(t)@,
    ensures
        n < 10 ==> final(s)@ == old(s)@.push((48 + n) as char),
        n >= 10 ==> final(s)@ == final(t)@.push((48 + n % 10) as char),
{
    if n < 10 {
        assert(decimal(n as nat) =~= seq![digit_char(n as nat)]);
        assert(old(s)@ + seq![digit_char(n as nat)] =~= old(s)@.push(digit_char(n as nat)));
    } else {
        assert(old(s)@ + decimal((n / 10) as nat).push(digit_char((n % 10) as nat)) =~= (old(s)@
            + decimal((n / 10) as nat)).push(digit_char((n % 10) as nat)));
    }
}

/// A padded numeral is the plain one behind zeros, as many as it needs to reach the width; a
/// negative number is written as its opposite behind a minus sign.
pub proof fn law_numerals_are_padded_with_zeros(
    s: &mut String,
    n: u64,
    width: usize,
    u: (),
    t: &mut String,
    v: (),
    k: int,
)
    requires
        call_ensures(push_padded, (s, n, width), u),
        call_ensures(push_decimal, (t, n), v),
        old(t)@ == Seq::<char>::empty(),
    ensures
        ({
            let z = final(s)@.len() - old(s)@.len() - final(t)@.len();
            &&& z >= 0
            &&& z + final(t)@.len() >= width
            &&& z == 0 || z + final(t)@.len() == width
            &&& final(s)@ == old(s)@ + Seq::new(z as nat, |i: int| '0') + final(t)@
        }),
{
    let d = decimal(n as nat);
    assert(final(t)@ =~= d);
    if d.len() >= width {
        assert(old(s)@ + Seq::new(0nat, |i: int| '0') =~= old(s)@);
    } else {
        let z = Seq::new((width - d.len()) as nat, |i: int| '0');
        assert(old(s)@ + (z + d) =~= old(s)@ + z + d);
    }
}

/// A number that is not negative is written without a sign, a negative one as its opposite
/// behind a minus sign.
pub proof fn law_negative_numbers_have_a_sign(
    s: &mut String,
    n: i64,
    u: (),
    t: &mut String,
    m: u64,
    v: (),
)
    requires
        call_ensures(push_signed, (s, n), u),
        call_ensures(push_decimal, (t, m), v),
    ensures
        n >= 0 && m == n && old(s)@ == old(t)@ ==> final(s)@ == final(t)@,
        n < 0 && m == -n && old(t)@ == old(s)@.push('-') ==> final(s)@ == final(t)@,
{
    if n < 0 && m == -n && old(t)@ == old(s)@.push('-') {
        assert(old(s)@ + (seq!['-'] + decimal(m as nat)) =~= old(s)@.push('-') + decimal(m as nat));
    }
}

/// A numeral is read digit by digit: one more digit makes ten times the number and the digit,
/// as long as that is allowed; anything else behind it spoils it.
pub proof fn law_numerals_are_read_digit_by_digit(
    t: &[char],
    s: &[char],
    c: char,
    max: u64,
    n: u64,
    r: Option<u64>,
)
    requires
        call_ensures(parse_numeral, (t, max), Some(n)),
        call_ensures(parse_numeral, (s, max), r),
        s@ == t@.push(c),
    ensures
        !('0' <= c <= '9') ==> r is None,
        '0' <= c <= '9' && n * 10 + (c as u32 - 48) <= max ==> r == Some(
            (n * 10 + (c as u32 - 48)) as u64,
        ),
        '0' <= c <= '9' && n * 10 + (c as u32 - 48) > max ==> r is None,
{
    let d = unsigned_part(t@);
    let e = unsigned_part(s@);
    assert(d.len() > 0);
    assert(t@.len() == 1 ==> is_digit(t@[0])) by {
        if t@.len() == 1 {
            assert(is_digit(d[0]));
        }
    }
    assert(e =~= d.push(c));
    assert(e.drop_last() =~= d);
    assert(e.last() == c);
    if all_digits(e) {
        assert(is_digit(e[e.len() - 1]));
    } else if is_digit(c) {
        assert forall|i: int| 0 <= i < e.len() implies is_digit(#[trigger] e[i]) by {
            if i < d.len() {
                assert(e[i] == d[i]);
            }
        }
    }
}

/// The shortest numerals: a digit is its number, nothing is no numeral, neither is a sign
/// alone, and a plus sign in front of a digit changes nothing.
pub proof fn law_shortest_numerals(s: &[char], max: u64, r: Option<u64>)
    requires
        call_ensures(parse_numeral, (s, max), r),
    ensures
        s@.len() == 0 ==> r is None,
        s@.len() == 1 ==> {
            &&& !('0' <= s@[0] <= '9') ==> r is None
            &&& '0' <= s@[0] <= '9' && s@[0] as u32 - 48 <= max ==> r == Some(
                (s@[0] as u32 - 48) as u64,
            )
        },
        s@.len() == 2 && s@[0] == '+' && '0' <= s@[1] <= '9' && s@[1] as u32 - 48 <= max ==> r
            == Some((s@[1] as u32 - 48) as u64),
        r matches Some(n) ==> n <= max,
{
    reveal_with_fuel(digits_value, 3);
    if s@.len() == 1 {
        assert(s@.drop_last() =~= Seq::empty());
        assert(is_digit(s@[0]) ==> all_digits(s@));
        assert(all_digits(s@) ==> is_digit(s@[0]));
    }
    if s@.len() == 2 && s@[0] == '+' {
        let d = s@.skip(1);
        assert(d =~= seq![s@[1]]);
        assert(d.drop_last() =~= Seq::empty());
        assert(d[0] == s@[1]);
    }
}

/// Letters A to Z and a to z change case, place by place; nothing else changes.
pub proof fn law_case_goes_by_letter(
    s: &[char],
    lo: Vec<char>,
    up: Vec<char>,
    k: int,
    c: char,
    l: char,
    u: char,
)
    requires
        call_ensures(lower_of, (s,), lo),
        call_ensures(upper_of, (s,), up),
        call_ensures(to_lower, (c,), l),
        call_ensures(to_upper, (c,), u),
        0 <= k < s@.len(),
    ensures
        lo@.len() == s@.len(),
        up@.len() == s@.len(),
        'A' <= s@[k] <= 'Z' ==> lo@[k] == (s@[k] as u32 + 32) as char && up@[k] == s@[k],
        'a' <= s@[k] <= 'z' ==> up@[k] == (s@[k] as u32 - 32) as char && lo@[k] == s@[k],
        !('A' <= s@[k] <= 'Z') && !('a' <= s@[k] <= 'z') ==> lo@[k] == s@[k] && up@[k] == s@[k],
        'A' <= c <= 'Z' ==> l == (c as u32 + 32) as char && u == c,
        'a' <= c <= 'z' ==> u == (c as u32 - 32) as char && l == c,
        !('A' <= c <= 'Z') && !('a' <= c <= 'z') ==> l == c && u == c,
{
}

/// Texts are compared character by character, and a run is found wherever all its characters
/// follow each other.
pub proof fn law_runs_are_found(
    h: &[char],
    n: &[char],
    e: bool,
    r: bool,
    w: &str,
    sp: bool,
    i: int,
)
    requires
        call_ensures(chars_eq, (h, n), e),
        call_ensures(contains_run, (h, n), r),
        call_ensures(spells, (h, w), sp),
    ensures
        e <==> h@.len() == n@.len() && forall|k: int| 0 <= k < h@.len() ==> h@[k] == n@[k],
        sp <==> h@.len() == w@.len() && forall|k: int| 0 <= k < h@.len() ==> h@[k] == w@[k],
        0 <= i && i + n@.len() <= h@.len() && (forall|k: int|
            0 <= k < n@.len() ==> n@[k] == #[trigger] h@[i + k]) ==> r,
        r ==> exists|j: int|
            0 <= j && #[trigger] (j + n@.len()) <= h@.len() && forall|k: int|
                0 <= k < n@.len() ==> n@[k] == #[trigger] h@[j + k],
{
    if h@.len() == n@.len() && forall|k: int| 0 <= k < h@.len() ==> h@[k] == n@[k] {
        assert(h@ =~= n@);
    }
    if h@.len() == w@.len() && forall|k: int| 0 <= k < h@.len() ==> h@[k] == w@[k] {
        assert(h@ =~= w@);
    }
    if 0 <= i && i + n@.len() <= h@.len() && forall|k: int|
        0 <= k < n@.len() ==> n@[k] == #[trigger] h@[i + k] {
        let sub = h@.subrange(i, i + n@.len());
        assert forall|k: int| 0 <= k < n@.len() implies sub[k] == n@[k] by {
            assert(n@[k] == h@[i + k]);
        }
        assert(sub =~= n@);
        assert(occurs_at(h@, n@, i));
    }
    if r {
        let j = choose|j: int| occurs_at(h@, n@, j);
        assert(j + n@.len() <= h@.len());
        assert forall|k: int| 0 <= k < n@.len() implies n@[k] == #[trigger] h@[j + k] by {
            assert(h@.subrange(j, j + n@.len())[k] == h@[j + k]);
        }
    }
}

/// Of the ASCII characters, the blank and the five controls from the tab to the carriage return
/// are white space, and no others.
pub proof fn law_ascii_space(c: char, r: bool)
    requires
        call_ensures(char_is_space, (c,), r),
        c as u32 <= 0x7f,
    ensures
        r <==> c == ' ' || c == '\t' || c == '\n' || c as u32 == 0x0b || c as u32 == 0x0c || c
            == '\r',
{
}

proof fn lemma_trim_start_at(s: Seq<char>) -> (i: int)
    ensures
        0 <= i <= s.len(),
        trim_start(s) == s.skip(i),
        forall|k: int| 0 <= k < i ==> is_space(#[trigger] s[k]),
        i < s.len() ==> !is_space(s[i]),
    decreases s.len(),
{
    if s.len() > 0 && is_space(s[0]) {
        let j = lemma_trim_start_at(s.skip(1));
        assert(s.skip(1).skip(j) =~= s.skip(j + 1));
        assert forall|k: int| 0 <= k < j + 1 implies is_space(#[trigger] s[k]) by {
            if k > 0 {
                assert(s.skip(1)[k - 1] == s[k]);
            }
        }
        j + 1
    } else {
        assert(s.skip(0) =~= s);
        0
    }
}

proof fn lemma_trim_end_at(s: Seq<char>) -> (j: int)
    ensures
        0 <= j <= s.len(),
        trim_end(s) == s.take(j),
        forall|k: int| j <= k < s.len() ==> is_space(#[trigger] s[k]),
        j > 0 ==> !is_space(s[j - 1]),
    decreases s.len(),
{
    if s.len() > 0 && is_space(s.last()) {
        let j = lemma_trim_end_at(s.drop_last());
        assert(s.drop_last().take(j) =~= s.take(j));
        assert forall|k: int| j <= k < s.len() implies is_space(#[trigger] s[k]) by {
            if k < s.len() - 1 {
                assert(s.drop_last()[k] == s[k]);
            }
        }
        j
    } else {
        assert(s.take(s.len() as int) =~= s);
        s.len() as int
    }
}

/// Trimming takes away white space and nothing else: what is left is a stretch of the text that
/// neither starts nor ends with white space, and all that is gone is white space.
pub proof fn law_trimming_takes_white_space_only(s: &[char], r: &[char])
    requires
        call_ensures(trim_of, (s,), r),
    ensures
        exists|i: int, j: int|
            0 <= i <= j <= s@.len() && r@ == #[trigger] s@.subrange(i, j) && (forall|k: int|
                0 <= k < i || j <= k < s@.len() ==> is_space(#[trigger] s@[k])),
        r@.len() > 0 ==> !is_space(r@[0]) && !is_space(r@.last()),
{
    let i = lemma_trim_start_at(s@);
    let t = s@.skip(i);
    let m = lemma_trim_end_at(t);
    let j = i + m;
    assert(t.take(m) =~= s@.subrange(i, j));
    assert forall|k: int| 0 <= k < i || j <= k < s@.len() implies is_space(#[trigger] s@[k]) by {
        if k >= j {
            assert(t[k - i] == s@[k]);
        }
    }
    assert(r@ == s@.subrange(i, j));
    if r@.len() > 0 {
        assert(r@[0] == s@[i]);
        assert(r@.last() == t[m - 1]);
    }
}

/// A character is found where it first stands, or at the end of a text without it.
pub proof fn law_first_place_is_found(s: &[char], c: char, k: usize)
    requires
        call_ensures(find_char, (s, c), k),
    ensures
        k <= s@.len(),
        k < s@.len() ==> s@[k as int] == c,
        forall|i: int| 0 <= i < k ==> s@[i] != c,
{
}

proof fn lemma_first_year_at(s: Seq<char>) -> (i: int)
    ensures
        first_year(s) is Some ==> 0 <= i && i + 4 <= s.len() && all_digits(s.subrange(i, i + 4))
            && first_year(s) == Some(digits_value(s.subrange(i, i + 4))),
        forall|k: int|
            0 <= k && k + 4 <= s.len() && (first_year(s) is None || k < i) ==> !all_digits(
                #[trigger] s.subrange(k, k + 4),
            ),
    decreases s.len(),
{
    if s.len() < 4 {
        0
    } else if all_digits(s.take(4)) {
        assert(s.take(4) =~= s.subrange(0, 4));
        0
    } else {
        let j = lemma_first_year_at(s.skip(1));
        assert(first_year(s) is Some ==> s.skip(1).subrange(j, j + 4) =~= s.subrange(
            j + 1,
            j + 5,
        ));
        assert(s.take(4) =~= s.subrange(0, 4));
        assert forall|k: int|
            0 <= k && k + 4 <= s.len() && (first_year(s) is None || k < j + 1) implies !all_digits(
            #[trigger] s.subrange(k, k + 4),
        ) by {
            if k > 0 {
                assert(s.skip(1).subrange(k - 1, k - 1 + 4) =~= s.subrange(k, k + 4));
            }
        }
        j + 1
    }
}

/// A year is the first four digits in a row: it is found if there are any, and the digits
/// stand for thousands, hundreds, tens and ones.
pub proof fn law_first_four_digits_are_the_year(s: &[char], r: Option<i32>)
    requires
        call_ensures(find_year, (s,), r),
    ensures
        r is Some <==> exists|i: int|
            0 <= i && i + 4 <= s@.len() && all_digits(#[trigger] s@.subrange(i, i + 4)),
        r matches Some(y) ==> exists|i: int|
            0 <= i && i + 4 <= s@.len() && all_digits(#[trigger] s@.subrange(i, i + 4)) && (forall|
                k: int,
            |
                0 <= k < i ==> !all_digits(#[trigger] s@.subrange(k, k + 4))) && y == (s@[i] as u32
                - 48) * 1000 + (s@[i + 1] as u32 - 48) * 100 + (s@[i + 2] as u32 - 48) * 10 + (s@[i
                + 3] as u32 - 48),
{
    let i = lemma_first_year_at(s@);
    if r is Some {
        let d = s@.subrange(i, i + 4);
        assert(all_digits(d));
        reveal_with_fuel(digits_value, 5);
        assert(d.drop_last() =~= s@.subrange(i, i + 3));
        assert(d.drop_last().drop_last() =~= s@.subrange(i, i + 2));
        assert(d.drop_last().drop_last().drop_last() =~= s@.subrange(i, i + 1));
        assert(d.drop_last().drop_last().drop_last().drop_last() =~= Seq::empty());
        assert(d[0] == s@[i] && d[1] == s@[i + 1] && d[2] == s@[i + 2] && d[3] == s@[i + 3]);
        assert(is_digit(d[0]) && is_digit(d[1]) && is_digit(d[2]) && is_digit(d[3]));
    }
}

/// Lines end at line feeds: a text without one is a single line, an empty text has none, and
/// what stands in front of a line feed is a line, without a carriage return at its end, before
/// the lines of what follows.
pub proof fn law_lines_end_at_line_feeds(a: Seq<char>, b: Seq<char>)
    requires
        forall|i: int| 0 <= i < a.len() ==> a[i] != '\n',
    ensures
        a.len() > 0 ==> lines(a) == seq![a],
        a.len() == 0 ==> lines(a) == Seq::<Seq<char>>::empty(),
        ({
            let cut = if a.len() > 0 && a.last() == '\r' {
                a.drop_last()
            } else {
                a
            };
            lines(a.push('\n') + b) == seq![cut] + lines(b)
        }),
{
    lemma_first_of(a, '\n', a.len() as int);
    let s = a.push('\n') + b;
    lemma_first_of(s, '\n', a.len() as int);
    assert(s.take(a.len() as int) =~= a);
    assert(s.skip(a.len() as int + 1) =~= b);
}

/// The next line is cut off in front: the lines of the rest are the other lines.
pub proof fn law_next_line_is_the_first(s: &[char], at: usize, r: (&[char], usize), k: int)
    requires
        call_ensures(next_line, (s, at), r),
        at < s@.len(),
        0 <= k < lines(s@.skip(r.1 as int)).len(),
    ensures
        at < r.1 <= s@.len(),
        lines(s@.skip(at as int)).len() == lines(s@.skip(r.1 as int)).len() + 1,
        lines(s@.skip(at as int))[0] == r.0@,
        lines(s@.skip(at as int))[k + 1] == lines(s@.skip(r.1 as int))[k],
{
}

/// Texts sort by the first character in which they differ, and a beginning sorts before the
/// whole.
pub proof fn law_texts_sort_by_the_first_difference(a: &str, b: &str, r: bool, k: int)
    requires
        call_ensures(sorts_first, (a, b), r),
        0 <= k <= a@.len(),
        k <= b@.len(),
        forall|i: int| 0 <= i < k ==> a@[i] == b@[i],
    ensures
        k < a@.len() && k < b@.len() && a@[k] < b@[k] ==> r,
        k < a@.len() && k < b@.len() && a@[k] > b@[k] ==> !r,
        k == a@.len() && k < b@.len() ==> r,
        k == b@.len() ==> !r,
{
    lemma_sorts_from(a@, b@, k);
}

proof fn lemma_sorts_from(a: Seq<char>, b: Seq<char>, k: int)
    requires
        0 <= k <= a.len(),
        k <= b.len(),
        forall|i: int| 0 <= i < k ==> a[i] == b[i],
    ensures
        sorts_before(a, b) == sorts_before(a.skip(k), b.skip(k)),
    decreases k,
{
    if k == 0 {
        assert(a.skip(0) =~= a);
        assert(b.skip(0) =~= b);
    } else {
        assert(a[0] == b[0]);
        assert forall|i: int| 0 <= i < k - 1 implies a.skip(1)[i] == b.skip(1)[i] by {
            assert(a[i + 1] == b[i + 1]);
        }
        lemma_sorts_from(a.skip(1), b.skip(1), k - 1);
        assert(a.skip(1).skip(k - 1) =~= a.skip(k));
        assert(b.skip(1).skip(k - 1) =~= b.skip(k));
    }
}

/// A text and its characters hold the same.
pub proof fn law_texts_are_their_characters(s: &str, v: Vec<char>, c: &[char], t: String)
    requires
        call_ensures(chars_of, (s,), v),
        call_ensures(string_of, (c,), t),
    ensures
        v@ == s@,
        t@ == c@,
{
}

/// A number below a hundred, padded to two digits, is its tens and its ones.
pub(crate) proof fn lemma_two_digits(n: nat)
    requires
        n < 100,
    ensures
        padded(n, 2) == seq![(48 + n / 10) as char, (48 + n % 10) as char],
{
    reveal_with_fuel(decimal, 3);
    if n < 10 {
        assert(decimal(n) =~= seq![digit_char(n)]);
        let z = Seq::new(1nat, |i: int| '0');
        assert(z =~= seq!['0']);
        assert((48 + n / 10) as char == '0');
        assert(z + decimal(n) =~= seq!['0', digit_char(n)]);
    } else {
        assert(decimal(n / 10) =~= seq![digit_char(n / 10)]);
        assert(decimal(n) =~= seq![digit_char(n / 10), digit_char(n % 10)]);
    }
}

/// Trimming in front, or behind, leaves the other end as it is.
pub proof fn law_trimming_has_two_ends(s: &[char], a: &[char], b: &[char])
    requires
        call_ensures(trim_start_of, (s,), a),
        call_ensures(trim_end_of, (s,), b),
    ensures
        exists|i: int|
            0 <= i <= s@.len() && a@ == #[trigger] s@.skip(i) && (forall|k: int|
                0 <= k < i ==> is_space(#[trigger] s@[k])),
        a@.len() > 0 ==> !is_space(a@[0]),
        exists|j: int|
            0 <= j <= s@.len() && b@ == #[trigger] s@.take(j) && (forall|k: int|
                j <= k < s@.len() ==> is_space(#[trigger] s@[k])),
        b@.len() > 0 ==> !is_space(b@.last()),
{
    let i = lemma_trim_start_at(s@);
    let j = lemma_trim_end_at(s@);
    assert(a@ == s@.skip(i));
    assert(b@ == s@.take(j));
}

/// A numeral is made of digits, perhaps behind a plus sign, and of nothing else.
pub proof fn law_numerals_are_made_of_digits(s: &[char], max: u64, r: Option<u64>, i: int)
    requires
        call_ensures(parse_numeral, (s, max), r),
        r is Some,
        0 <= i < s@.len(),
    ensures
        '0' <= s@[i] <= '9' || i == 0 && s@[0] == '+' && s@.len() > 1,
{
    let d = unsigned_part(s@);
    if d.len() < s@.len() {
        if i > 0 {
            assert(is_digit(d[i - 1]));
        }
    } else {
        assert(is_digit(d[i]));
    }
}

/// Beyond ASCII, white space is the next line, the blanks that do not break, the blanks of other
/// widths, and the line and paragraph separators.
pub proof fn law_wider_space(c: char, r: bool)
    requires
        call_ensures(char_is_space, (c,), r),
        c as u32 > 0x7f,
    ensures
        r <==> c == '\u{85}' || c == '\u{a0}' || c == '\u{1680}' || '\u{2000}' <= c <= '\u{200a}' || c
            == '\u{2028}' || c == '\u{2029}' || c == '\u{202f}' || c == '\u{205f}' || c
            == '\u{3000}',
{
}

} // verus!
