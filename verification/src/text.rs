//! Text as a sequence of characters: the few operations the settings and probe
//! parsers need, each stated over `Seq<char>`.

use vstd::prelude::*;

verus! {

/// The characters with the Unicode property `White_Space`.
pub open spec fn is_white(c: char) -> bool {
    let u = c as u32;
    ||| 0x09 <= u <= 0x0D
    ||| u == 0x20
    ||| u == 0x85
    ||| u == 0xA0
    ||| u == 0x1680
    ||| 0x2000 <= u <= 0x200A
    ||| u == 0x2028
    ||| u == 0x2029
    ||| u == 0x202F
    ||| u == 0x205F
    ||| u == 0x3000
}

/// Whether `c` is white space.
pub fn white(c: char) -> (b: bool)
    ensures
        b == is_white(c),
{
    let u: u32 = c as u32;
    (0x09 <= u && u <= 0x0D) || u == 0x20 || u == 0x85 || u == 0xA0 || u == 0x1680 || (0x2000 <= u
        && u <= 0x200A) || u == 0x2028 || u == 0x2029 || u == 0x202F || u == 0x205F || u == 0x3000
}

/// `s` without its leading white space.
pub open spec fn trimmed_start(s: Seq<char>) -> Seq<char>
    decreases s.len(),
{
    if s.len() > 0 && is_white(s[0]) {
        trimmed_start(s.subrange(1, s.len() as int))
    } else {
        s
    }
}

/// `s` without its trailing white space.
pub open spec fn trimmed_end(s: Seq<char>) -> Seq<char>
    decreases s.len(),
{
    if s.len() > 0 && is_white(s[s.len() - 1]) {
        trimmed_end(s.subrange(0, s.len() - 1))
    } else {
        s
    }
}

/// `s` without white space at either end.
pub open spec fn trimmed(s: Seq<char>) -> Seq<char> {
    trimmed_end(trimmed_start(s))
}

/// The characters of `s`.
pub fn chars_of(s: &str) -> (v: Vec<char>)
    ensures
        v@ == s@,
{
    let mut v: Vec<char> = Vec::new();
    for c in it: s.chars()
        invariant
            it.seq() == s@,
            v@ == s@.subrange(0, it.index() as int),
    {
        v.push(c);
        assert(v@ =~= s@.subrange(0, it.index() + 1));
    }
    assert(v@ =~= s@);
    v
}

/// Whether two texts are the same characters.
pub fn same_text(a: &str, b: &str) -> (same: bool)
    ensures
        same == (a@ == b@),
{
    let x = chars_of(a);
    let y = chars_of(b);
    if x.len() != y.len() {
        return false;
    }
    let mut i: usize = 0;
    while i < x.len()
        invariant
            x@ == a@,
            y@ == b@,
            x@.len() == y@.len(),
            i <= x@.len(),
            forall|j: int| 0 <= j < i ==> x@[j] == y@[j],
        decreases x@.len() - i,
    {
        if x[i] != y[i] {
            assert(a@[i as int] != b@[i as int]);
            return false;
        }
        i = i + 1;
    }
    assert(a@ =~= b@);
    true
}

proof fn lemma_trimmed_start_step(s: Seq<char>, i: int)
    requires
        0 <= i < s.len(),
    ensures
        trimmed_start(s.subrange(i, s.len() as int)) == if is_white(s[i]) {
            trimmed_start(s.subrange(i + 1, s.len() as int))
        } else {
            s.subrange(i, s.len() as int)
        },
{
    let t = s.subrange(i, s.len() as int);
    assert(t.subrange(1, t.len() as int) =~= s.subrange(i + 1, s.len() as int));
}

/// Drops white space from both ends.
pub fn trim<'a>(s: &'a str) -> (t: &'a str)
    ensures
        t@ == trimmed(s@),
{
    let v = chars_of(s);
    let mut a: usize = 0;
    assert(s@ =~= s@.subrange(0, s@.len() as int));
    while a < v.len() && white(v[a])
        invariant
            v@ == s@,
            a <= v@.len(),
            trimmed_start(s@) == trimmed_start(s@.subrange(a as int, s@.len() as int)),
        decreases v@.len() - a,
    {
        proof {
            lemma_trimmed_start_step(s@, a as int);
        }
        a = a + 1;
    }
    proof {
        if a < s@.len() {
            lemma_trimmed_start_step(s@, a as int);
        }
        assert(trimmed_start(s@) =~= s@.subrange(a as int, s@.len() as int));
    }
    let mut b: usize = v.len();
    while a < b && white(v[b - 1])
        invariant
            v@ == s@,
            a <= b <= v@.len(),
            trimmed_end(trimmed_start(s@)) == trimmed_end(s@.subrange(a as int, b as int)),
        decreases b,
    {
        proof {
            let t = s@.subrange(a as int, b as int);
            assert(t.subrange(0, t.len() - 1) =~= s@.subrange(a as int, b - 1));
        }
        b = b - 1;
    }
    s.substring_char(a, b)
}

/// The first run of characters of `s` that are not white space, empty when
/// there is none.
pub open spec fn first_word(s: Seq<char>) -> Seq<char> {
    leading_word(trimmed_start(s))
}

/// The characters of `s` before its first white space.
pub open spec fn leading_word(s: Seq<char>) -> Seq<char>
    decreases s.len(),
{
    if s.len() == 0 || is_white(s[0]) {
        Seq::empty()
    } else {
        seq![s[0]] + leading_word(s.subrange(1, s.len() as int))
    }
}

/// The ASCII digits.
pub open spec fn is_digit(c: char) -> bool {
    0x30 <= c as u32 <= 0x39
}

/// `s` consists of ASCII digits, and of at least one.
pub open spec fn all_digits(s: Seq<char>) -> bool {
    s.len() > 0 && forall|i: int| 0 <= i < s.len() ==> is_digit(#[trigger] s[i])
}

/// `s` without one leading `+`.
pub open spec fn unsigned_digits(s: Seq<char>) -> Seq<char> {
    if s.len() > 0 && s[0] == '+' {
        s.subrange(1, s.len() as int)
    } else {
        s
    }
}

/// The value `s` spells as an unsigned decimal: one or more ASCII digits, with
/// an optional leading `+`.
pub open spec fn unsigned_value(s: Seq<char>) -> Option<nat> {
    if all_digits(unsigned_digits(s)) {
        Some(digits_value(unsigned_digits(s)))
    } else {
        None
    }
}

/// The value of a sequence of ASCII digits, most significant first.
pub open spec fn digits_value(s: Seq<char>) -> nat
    decreases s.len(),
{
    if s.len() == 0 {
        0
    } else {
        10 * digits_value(s.drop_last()) + (s.last() as u32 - 0x30) as nat
    }
}

/// The value `s` spells, when it is at most `limit`.
pub open spec fn bounded_value(s: Seq<char>, limit: int) -> Option<int> {
    match unsigned_value(s) {
        Some(n) => if n <= limit {
            Some(n as int)
        } else {
            None
        },
        None => None,
    }
}

proof fn lemma_digits_value_prefix(s: Seq<char>, k: int)
    requires
        0 <= k <= s.len(),
    ensures
        digits_value(s.subrange(0, k)) <= digits_value(s),
    decreases s.len() - k,
{
    if k < s.len() {
        let t = s.subrange(0, k + 1);
        assert(t.drop_last() =~= s.subrange(0, k));
        lemma_digits_value_prefix(s, k + 1);
    } else {
        assert(s.subrange(0, k) =~= s);
    }
}

/// Reads an unsigned decimal; `None` when `s` is not one or exceeds `u64`.
pub fn parse_u64(s: &str) -> (n: Option<u64>)
    ensures
        n is Some <==> bounded_value(s@, u64::MAX as int) is Some,
        n is Some ==> bounded_value(s@, u64::MAX as int) == Some(n->0 as int),
{
    let v = chars_of(s);
    let start: usize = if v.len() > 0 && v[0] == '+' { 1 } else { 0 };
    let ghost digits = unsigned_digits(s@);
    assert(digits =~= s@.subrange(start as int, s@.len() as int));
    if start == v.len() {
        return None;
    }
    let mut n: u64 = 0;
    let mut i: usize = start;
    while i < v.len()
        invariant
            v@ == s@,
            start <= i <= v@.len(),
            digits == s@.subrange(start as int, s@.len() as int),
            digits.len() > 0,
            digits == unsigned_digits(s@),
            forall|k: int| 0 <= k < i - start ==> is_digit(#[trigger] digits[k]),
            n == digits_value(digits.subrange(0, i - start)),
        decreases v@.len() - i,
    {
        let c = v[i];
        assert(digits[i - start] == c);
        let u: u32 = c as u32;
        if u < 0x30 || 0x39 < u {
            assert(!is_digit(digits[i - start]));
            return None;
        }
        let d: u64 = (u - 0x30) as u64;
        proof {
            let t = digits.subrange(0, i - start + 1);
            assert(t.drop_last() =~= digits.subrange(0, i - start));
            assert(t.last() == c);
            assert(digits_value(t) == 10 * n + d);
            lemma_digits_value_prefix(digits, i - start + 1);
        }
        if n > (u64::MAX - d) / 10 {
            return None;
        }
        n = n * 10 + d;
        i = i + 1;
    }
    assert(digits.subrange(0, v@.len() - start) =~= digits);
    Some(n)
}

/// Reads an unsigned decimal; `None` when `s` is not one or exceeds `usize`.
pub fn parse_usize(s: &str) -> (n: Option<usize>)
    ensures
        n is Some <==> bounded_value(s@, usize::MAX as int) is Some,
        n is Some ==> bounded_value(s@, usize::MAX as int) == Some(n->0 as int),
{
    match parse_u64(s) {
        Some(n) => if n <= usize::MAX as u64 {
            Some(n as usize)
        } else {
            None
        },
        None => None,
    }
}

/// The digits of a number that may carry a sign.
pub open spec fn signed_value(s: Seq<char>) -> Option<int> {
    if s.len() > 0 && s[0] == '-' {
        if s.len() > 1 && all_digits(s.subrange(1, s.len() as int)) {
            Some(-(digits_value(s.subrange(1, s.len() as int)) as int))
        } else {
            None
        }
    } else {
        match unsigned_value(s) {
            Some(n) => Some(n as int),
            None => None,
        }
    }
}

/// The signed 32-bit number that `s` spells exactly.
pub open spec fn i32_value(s: Seq<char>) -> Option<int> {
    match signed_value(s) {
        Some(n) => if i32::MIN <= n <= i32::MAX {
            Some(n)
        } else {
            None
        },
        None => None,
    }
}

/// Reads a signed 32-bit number.
pub fn parse_i32(s: &str) -> (n: Option<i32>)
    ensures
        n is Some <==> i32_value(s@) is Some,
        n is Some ==> i32_value(s@) == Some(n->0 as int),
{
    let v = chars_of(s);
    if v.len() > 0 && v[0] == '-' {
        if v.len() > 1 && v[1] == '+' {
            assert(!is_digit(s@.subrange(1, s@.len() as int)[0]));
            return None;
        }
        let rest = s.substring_char(1, v.len());
        assert(v.len() > 1 ==> rest@[0] == v@[1]);
        assert(unsigned_digits(rest@) =~= rest@);
        match parse_u64(rest) {
            Some(m) => if m <= 0x8000_0000 {
                Some((-(m as i64)) as i32)
            } else {
                None
            },
            None => None,
        }
    } else {
        match parse_u64(s) {
            Some(m) => if m <= 0x7fff_ffff {
                Some(m as i32)
            } else {
                None
            },
            None => None,
        }
    }
}

/// Reads the first word of `s`.
pub fn take_first_word<'a>(s: &'a str) -> (w: &'a str)
    ensures
        w@ == first_word(s@),
{
    let v = chars_of(s);
    let mut a: usize = 0;
    assert(s@ =~= s@.subrange(0, s@.len() as int));
    while a < v.len() && white(v[a])
        invariant
            v@ == s@,
            a <= v@.len(),
            trimmed_start(s@) == trimmed_start(s@.subrange(a as int, s@.len() as int)),
        decreases v@.len() - a,
    {
        proof {
            lemma_trimmed_start_step(s@, a as int);
        }
        a = a + 1;
    }
    let ghost t = s@.subrange(a as int, s@.len() as int);
    proof {
        if a < s@.len() {
            lemma_trimmed_start_step(s@, a as int);
        }
        assert(trimmed_start(s@) =~= t);
    }
    let mut b: usize = a;
    assert(t =~= s@.subrange(a as int, a as int) + s@.subrange(a as int, s@.len() as int));
    assert(leading_word(t) =~= s@.subrange(a as int, a as int) + leading_word(t));
    while b < v.len() && !white(v[b])
        invariant
            v@ == s@,
            a <= b <= v@.len(),
            leading_word(t) == s@.subrange(a as int, b as int) + leading_word(
                s@.subrange(b as int, s@.len() as int),
            ),
        decreases v@.len() - b,
    {
        proof {
            let rest = s@.subrange(b as int, s@.len() as int);
            assert(rest.subrange(1, rest.len() as int) =~= s@.subrange(b + 1, s@.len() as int));
            assert(s@.subrange(a as int, b as int) + seq![s@[b as int]] =~= s@.subrange(
                a as int,
                b + 1,
            ));
            assert(leading_word(t) =~= s@.subrange(a as int, b + 1) + leading_word(
                s@.subrange(b + 1, s@.len() as int),
            ));
        }
        b = b + 1;
    }
    assert(leading_word(s@.subrange(b as int, s@.len() as int)) =~= Seq::empty());
    assert(leading_word(t) =~= s@.subrange(a as int, b as int));
    s.substring_char(a, b)
}

/// Where the line that position `a` of `s` lies on ends.
pub open spec fn line_end(s: Seq<char>, a: int) -> int
    decreases s.len() - a,
{
    if a >= s.len() || s[a] == '\n' {
        a
    } else {
        line_end(s, a + 1)
    }
}

/// Whether `p` stands in `s` at position `a`.
pub open spec fn stands_at(s: Seq<char>, p: Seq<char>, a: int) -> bool {
    0 <= a && a + p.len() <= s.len() && s.subrange(a, a + p.len()) == p
}

/// What follows `p` on the first line of `s`, from the line starting at `a` on,
/// that begins with `p`.
pub open spec fn tagged_line_from(s: Seq<char>, p: Seq<char>, a: int) -> Option<Seq<char>>
    decreases s.len() + 1 - a,
{
    if a < 0 || a >= s.len() {
        None
    } else if stands_at(s, p, a) {
        Some(s.subrange(a + p.len(), line_end(s, a + p.len())))
    } else {
        proof {
            lemma_line_end(s, a);
        }
        tagged_line_from(s, p, line_end(s, a) + 1)
    }
}

/// What follows `p` on the first line of `s` that begins with it.
pub open spec fn tagged_line_of(s: Seq<char>, p: Seq<char>) -> Option<Seq<char>> {
    tagged_line_from(s, p, 0)
}

/// A line ends at or after any position on it, and before the text does.
pub proof fn lemma_line_end(s: Seq<char>, a: int)
    requires
        0 <= a <= s.len(),
    ensures
        a <= line_end(s, a) <= s.len(),
    decreases s.len() - a,
{
    if a < s.len() && s[a] != '\n' {
        lemma_line_end(s, a + 1);
    }
}

/// Whether `p` stands in `v` at `a`.
fn stands(v: &Vec<char>, p: &Vec<char>, a: usize) -> (b: bool)
    requires
        a <= v@.len(),
    ensures
        b == stands_at(v@, p@, a as int),
{
    if v.len() - a < p.len() {
        return false;
    }
    let mut i: usize = 0;
    while i < p.len()
        invariant
            a + p@.len() <= v.len(),
            i <= p@.len(),
            forall|j: int| 0 <= j < i ==> v@.subrange(a as int, a + p@.len())[j] == p@[j],
        decreases p@.len() - i,
    {
        if v[a + i] != p[i] {
            assert(v@.subrange(a as int, a + p@.len())[i as int] != p@[i as int]);
            return false;
        }
        i = i + 1;
    }
    assert(v@.subrange(a as int, a + p@.len()) =~= p@);
    true
}

/// Position `a` is where `p` stands in `s` first, at or after `from`.
pub open spec fn first_at(s: Seq<char>, p: Seq<char>, from: int, a: int) -> bool {
    from <= a && stands_at(s, p, a) && forall|b: int| from <= b < a ==> !#[trigger] stands_at(s, p, b)
}

/// Whether `p` stands anywhere in `s`.
pub open spec fn contains(s: Seq<char>, p: Seq<char>) -> bool {
    exists|a: int| #[trigger] stands_at(s, p, a)
}

/// Finds where `p` stands in `v` first, at or after `from`.
pub fn find_in(v: &Vec<char>, p: &Vec<char>, from: usize) -> (at: Option<usize>)
    requires
        from <= v@.len(),
    ensures
        at is Some ==> first_at(v@, p@, from as int, at->0 as int),
        at is None ==> forall|b: int| from <= b ==> !#[trigger] stands_at(v@, p@, b),
{
    let mut a: usize = from;
    loop
        invariant
            from <= a <= v@.len(),
            forall|b: int| from <= b < a ==> !#[trigger] stands_at(v@, p@, b),
        decreases v@.len() - a,
    {
        if stands(v, p, a) {
            return Some(a);
        }
        if a == v.len() {
            return None;
        }
        a = a + 1;
    }
}

/// Whether `p` stands anywhere in `s`.
pub fn has_text(s: &str, p: &str) -> (b: bool)
    ensures
        b == contains(s@, p@),
{
    let v = chars_of(s);
    let w = chars_of(p);
    match find_in(&v, &w, 0) {
        Some(a) => {
            assert(stands_at(s@, p@, a as int));
            true
        },
        None => false,
    }
}

/// Whether `s` ends with `p`.
pub fn ends_with(s: &str, p: &str) -> (b: bool)
    ensures
        b == stands_at(s@, p@, s@.len() - p@.len()),
{
    let v = chars_of(s);
    let w = chars_of(p);
    if w.len() > v.len() {
        return false;
    }
    stands(&v, &w, v.len() - w.len())
}

/// Finds the end of the line that position `a` lies on.
fn find_line_end(v: &Vec<char>, a: usize) -> (e: usize)
    requires
        a <= v@.len(),
    ensures
        e == line_end(v@, a as int),
        a <= e <= v@.len(),
{
    let mut e: usize = a;
    while e < v.len() && v[e] != '\n'
        invariant
            a <= e <= v@.len(),
            line_end(v@, a as int) == line_end(v@, e as int),
        decreases v@.len() - e,
    {
        e = e + 1;
    }
    e
}

/// Reads what follows `p` on the first line of `s` that begins with it.
pub fn tagged_line<'a>(s: &'a str, p: &str) -> (rest: Option<&'a str>)
    ensures
        rest is Some <==> tagged_line_of(s@, p@) is Some,
        rest is Some ==> tagged_line_of(s@, p@) == Some(rest->0@),
{
    let v = chars_of(s);
    let tag = chars_of(p);
    let mut a: usize = 0;
    while a < v.len()
        invariant
            v@ == s@,
            tag@ == p@,
            a <= v@.len(),
            tagged_line_of(s@, p@) == tagged_line_from(s@, p@, a as int),
        decreases v@.len() - a,
    {
        if stands(&v, &tag, a) {
            let from: usize = a + tag.len();
            let e: usize = find_line_end(&v, from);
            return Some(s.substring_char(from, e));
        }
        let e: usize = find_line_end(&v, a);
        if e == v.len() {
            assert(tagged_line_from(s@, p@, e + 1) is None);
            return None;
        }
        a = e + 1;
    }
    None
}

/// The upper-case ASCII letters lowered, every other character unchanged.
pub open spec fn ascii_lower(c: char) -> int {
    if 0x41 <= c as u32 <= 0x5A {
        c as u32 + 0x20
    } else {
        c as u32 as int
    }
}

/// Two texts that differ at most in the case of ASCII letters.
pub open spec fn same_ignoring_case(a: Seq<char>, b: Seq<char>) -> bool {
    a.len() == b.len() && forall|i: int|
        0 <= i < a.len() ==> ascii_lower(#[trigger] a[i]) == ascii_lower(b[i])
}

fn lower(c: char) -> (u: u32)
    ensures
        u == ascii_lower(c),
{
    let u: u32 = c as u32;
    if 0x41 <= u && u <= 0x5A {
        u + 0x20
    } else {
        u
    }
}

/// Whether two texts differ at most in the case of ASCII letters.
pub fn same_text_ignoring_case(a: &str, b: &str) -> (same: bool)
    ensures
        same == same_ignoring_case(a@, b@),
{
    let x = chars_of(a);
    let y = chars_of(b);
    if x.len() != y.len() {
        return false;
    }
    let mut i: usize = 0;
    while i < x.len()
        invariant
            x@ == a@,
            y@ == b@,
            x@.len() == y@.len(),
            i <= x@.len(),
            forall|j: int| 0 <= j < i ==> ascii_lower(#[trigger] a@[j]) == ascii_lower(b@[j]),
        decreases x@.len() - i,
    {
        if lower(x[i]) != lower(y[i]) {
            assert(ascii_lower(a@[i as int]) != ascii_lower(b@[i as int]));
            return false;
        }
        i = i + 1;
    }
    true
}

/// The ASCII digit for `d`, which is below ten.
pub open spec fn digit_char(d: nat) -> char {
    (0x30 + d) as char
}

/// `n` in decimal, without leading zeros.
pub open spec fn decimal(n: nat) -> Seq<char>
    decreases n,
{
    if n < 10 {
        seq![digit_char(n)]
    } else {
        decimal(n / 10).push(digit_char(n % 10))
    }
}

fn digit_text(d: usize) -> (s: &'static str)
    requires
        d < 10,
    ensures
        s@ == seq![digit_char(d as nat)],
{
    proof {
        reveal_strlit("0");
        reveal_strlit("1");
        reveal_strlit("2");
        reveal_strlit("3");
        reveal_strlit("4");
        reveal_strlit("5");
        reveal_strlit("6");
        reveal_strlit("7");
        reveal_strlit("8");
        reveal_strlit("9");
    }
    let s = match d {
        0 => "0",
        1 => "1",
        2 => "2",
        3 => "3",
        4 => "4",
        5 => "5",
        6 => "6",
        7 => "7",
        8 => "8",
        _ => "9",
    };
    assert(s@ =~= seq![digit_char(d as nat)]);
    s
}

/// Writes `n` in decimal.
pub fn decimal_text(n: usize) -> (s: String)
    ensures
        s@ == decimal(n as nat),
    decreases n,
{
    if n < 10 {
        let s = digit_text(n).to_owned();
        s
    } else {
        let head = decimal_text(n / 10);
        let s = head.concat(digit_text(n % 10));
        assert(s@ =~= decimal(n as nat));
        s
    }
}

/// A decimal consists of digits and spells the number it was made from, so
/// reading it back gives that number.
pub proof fn lemma_decimal_reads_back(n: nat)
    ensures
        all_digits(decimal(n)),
        digits_value(decimal(n)) == n,
        unsigned_value(decimal(n)) == Some(n),
    decreases n,
{
    if n < 10 {
        assert(decimal(n).drop_last() =~= Seq::empty());
        assert(digits_value(Seq::<char>::empty()) == 0);
    } else {
        lemma_decimal_reads_back(n / 10);
        assert(decimal(n).drop_last() =~= decimal(n / 10));
        assert forall|i: int| 0 <= i < decimal(n).len() implies is_digit(
            #[trigger] decimal(n)[i],
        ) by {
            if i < decimal(n).len() - 1 {
                assert(decimal(n)[i] == decimal(n / 10)[i]);
            }
        }
    }
    assert(is_digit(decimal(n)[0]));
}

/// Space, tab and the line ends are white; no printed ASCII character is.
pub proof fn lemma_what_is_white(c: char)
    ensures
        c == ' ' || c == '\t' || c == '\n' || c == '\r' ==> is_white(c),
        0x21 <= c as u32 <= 0x7e ==> !is_white(c),
        is_digit(c) ==> !is_white(c),
{
}

proof fn lemma_trimmed_start_cuts(s: Seq<char>) -> (a: int)
    ensures
        0 <= a <= s.len(),
        trimmed_start(s) == s.subrange(a, s.len() as int),
        forall|i: int| 0 <= i < a ==> is_white(#[trigger] s[i]),
        a < s.len() ==> !is_white(s[a]),
    decreases s.len(),
{
    if s.len() > 0 && is_white(s[0]) {
        let t = s.subrange(1, s.len() as int);
        let b = lemma_trimmed_start_cuts(t);
        assert(t.subrange(b, t.len() as int) =~= s.subrange(b + 1, s.len() as int));
        assert forall|i: int| 0 <= i < b + 1 implies is_white(#[trigger] s[i]) by {
            if i > 0 {
                assert(t[i - 1] == s[i]);
            }
        }
        if b + 1 < s.len() {
            assert(t[b] == s[b + 1]);
        }
        b + 1
    } else {
        assert(s.subrange(0, s.len() as int) =~= s);
        0
    }
}

proof fn lemma_trimmed_end_cuts(s: Seq<char>) -> (b: int)
    ensures
        0 <= b <= s.len(),
        trimmed_end(s) == s.subrange(0, b),
        forall|i: int| b <= i < s.len() ==> is_white(#[trigger] s[i]),
        b > 0 ==> !is_white(s[b - 1]),
    decreases s.len(),
{
    let n = s.len() as int;
    if s.len() > 0 && is_white(s[n - 1]) {
        let t = s.subrange(0, n - 1);
        let b = lemma_trimmed_end_cuts(t);
        assert(t.subrange(0, b) =~= s.subrange(0, b));
        assert forall|i: int| b <= i < n implies is_white(#[trigger] s[i]) by {
            if i < n - 1 {
                assert(t[i] == s[i]);
            }
        }
        if b > 0 {
            assert(t[b - 1] == s[b - 1]);
        }
        b
    } else {
        assert(s.subrange(0, n) =~= s);
        n
    }
}

/// Trimming takes white space off both ends and nothing else: what is left stands
/// in the text as it was, starts and ends with something that is not white, and
/// all around it is.
pub proof fn lemma_trimmed(s: Seq<char>) -> (cut: (int, int))
    ensures
        0 <= cut.0 <= cut.1 <= s.len(),
        trimmed(s) == s.subrange(cut.0, cut.1),
        forall|i: int| 0 <= i < cut.0 ==> is_white(#[trigger] s[i]),
        forall|i: int| cut.1 <= i < s.len() ==> is_white(#[trigger] s[i]),
        cut.0 < cut.1 ==> !is_white(s[cut.0]) && !is_white(s[cut.1 - 1]),
{
    let a = lemma_trimmed_start_cuts(s);
    let t = s.subrange(a, s.len() as int);
    let b = lemma_trimmed_end_cuts(t);
    assert(t.subrange(0, b) =~= s.subrange(a, a + b));
    assert forall|i: int| a + b <= i < s.len() implies is_white(#[trigger] s[i]) by {
        assert(t[i - a] == s[i]);
    }
    if b > 0 {
        assert(t[b - 1] == s[a + b - 1]);
        assert(a < s.len());
    }
    (a, a + b)
}

/// White space around a text that neither starts nor ends with any is taken off,
/// and the text is left whole.
pub proof fn lemma_padding_is_trimmed(l: Seq<char>, x: Seq<char>, r: Seq<char>)
    requires
        forall|i: int| 0 <= i < l.len() ==> is_white(#[trigger] l[i]),
        forall|i: int| 0 <= i < r.len() ==> is_white(#[trigger] r[i]),
        x.len() > 0,
        !is_white(x[0]),
        !is_white(x.last()),
    ensures
        trimmed(l + x + r) == x,
{
    let s = l + x + r;
    let (a, b) = lemma_trimmed(s);
    let (n, m) = (l.len() as int, (l.len() + x.len()) as int);
    assert(s[n] == x[0]);
    assert(s[m - 1] == x.last());
    if a > n {
        assert(is_white(s[n]));
    }
    if b < m {
        assert(is_white(s[m - 1]));
    }
    if a < n {
        assert(s[a] == l[a]);
    }
    if b > m {
        assert(s[b - 1] == r[b - 1 - m]);
    }
    assert(s.subrange(n, m) =~= x);
}

/// A number written down is read as that number, with or without a plus sign and
/// whatever white space stands around it, and as nothing where it is too large.
pub proof fn lemma_numbers_read_back(l: Seq<char>, n: nat, r: Seq<char>, limit: int)
    requires
        forall|i: int| 0 <= i < l.len() ==> is_white(#[trigger] l[i]),
        forall|i: int| 0 <= i < r.len() ==> is_white(#[trigger] r[i]),
    ensures
        n <= limit ==> bounded_value(decimal(n), limit) == Some(n as int),
        n > limit ==> bounded_value(decimal(n), limit) is None,
        bounded_value(seq!['+'] + decimal(n), limit) == bounded_value(decimal(n), limit),
        trimmed(l + decimal(n) + r) == decimal(n),
{
    lemma_decimal_reads_back(n);
    let d = decimal(n);
    let plus = seq!['+'] + d;
    assert(plus.subrange(1, plus.len() as int) =~= d);
    assert(is_digit(d[0]));
    assert(is_digit(d[d.len() - 1]));
    assert(unsigned_digits(d) == d);
    lemma_padding_is_trimmed(l, d, r);
}

/// What is read as a number consists of digits, after a plus sign at most.
pub proof fn lemma_only_digits_are_numbers(s: Seq<char>, limit: int, i: int)
    requires
        bounded_value(s, limit) is Some,
        0 <= i < s.len(),
    ensures
        0x30 <= s[i] as u32 <= 0x39 || i == 0 && s[i] == '+' && s.len() > 1,
        0 <= bounded_value(s, limit)->0 <= limit,
        s.len() > 0,
{
    let d = unsigned_digits(s);
    if s[0] == '+' {
        assert(d.len() == s.len() - 1);
        if i > 0 {
            assert(d[i - 1] == s[i]);
            assert(is_digit(d[i - 1]));
        }
    } else {
        assert(d == s);
        assert(is_digit(d[i]));
    }
}

/// A signed number written down is read as that number, where it fits.
pub proof fn lemma_signed_numbers_read_back(n: nat)
    ensures
        n <= i32::MAX ==> i32_value(decimal(n)) == Some(n as int),
        n > i32::MAX ==> i32_value(decimal(n)) is None,
        n <= i32::MAX + 1 ==> i32_value(seq!['-'] + decimal(n)) == Some(-(n as int)),
        n > i32::MAX + 1 ==> i32_value(seq!['-'] + decimal(n)) is None,
{
    lemma_decimal_reads_back(n);
    let d = decimal(n);
    assert(is_digit(d[0]));
    let minus = seq!['-'] + d;
    assert(minus.subrange(1, minus.len() as int) =~= d);
}

/// Position `a` is where a line starts.
pub open spec fn starts_line(s: Seq<char>, a: int) -> bool {
    0 <= a < s.len() && (a == 0 || s[a - 1] == '\n')
}

proof fn lemma_line_end_is_first(s: Seq<char>, a: int)
    requires
        0 <= a <= s.len(),
    ensures
        a <= line_end(s, a) <= s.len(),
        forall|i: int| a <= i < line_end(s, a) ==> #[trigger] s[i] != '\n',
        line_end(s, a) < s.len() ==> s[line_end(s, a)] == '\n',
    decreases s.len() - a,
{
    if !(a >= s.len() || s[a] == '\n') {
        lemma_line_end_is_first(s, a + 1);
    }
}

proof fn lemma_tagged_line_from(s: Seq<char>, p: Seq<char>, a: int) -> (at: int)
    requires
        0 <= a,
        a < s.len() ==> starts_line(s, a),
        a <= s.len() + 1,
    ensures
        tagged_line_from(s, p, a) is Some ==> {
            &&& a <= at
            &&& starts_line(s, at)
            &&& stands_at(s, p, at)
            &&& tagged_line_from(s, p, a)->0 == s.subrange(
                at + p.len(),
                line_end(s, at + p.len()),
            )
            &&& forall|b: int| a <= b < at && starts_line(s, b) ==> !#[trigger] stands_at(s, p, b)
        },
        tagged_line_from(s, p, a) is None ==> forall|b: int|
            a <= b && starts_line(s, b) ==> !#[trigger] stands_at(s, p, b),
    decreases s.len() + 1 - a,
{
    if a >= s.len() || stands_at(s, p, a) {
        a
    } else {
        lemma_line_end_is_first(s, a);
        let e = line_end(s, a);
        let at = lemma_tagged_line_from(s, p, e + 1);
        assert forall|b: int| a < b <= e implies !starts_line(s, b) by {
            if b < s.len() {
                assert(s[b - 1] != '\n');
            }
        }
        at
    }
}

/// A tagged line is the first line that starts with the tag, and what is read of
/// it is the rest of that line, up to its end and no further. Where no line
/// starts with the tag, nothing is read.
pub proof fn lemma_tagged_line(s: Seq<char>, p: Seq<char>) -> (at: int)
    ensures
        tagged_line_of(s, p) is Some ==> {
            let rest = tagged_line_of(s, p)->0;
            let end = at + p.len() + rest.len();
            &&& starts_line(s, at)
            &&& stands_at(s, p, at)
            &&& end <= s.len()
            &&& rest == s.subrange(at + p.len(), end)
            &&& end < s.len() ==> s[end] == '\n'
            &&& forall|i: int| 0 <= i < rest.len() ==> #[trigger] rest[i] != '\n'
            &&& forall|b: int| 0 <= b < at && starts_line(s, b) ==> !#[trigger] stands_at(s, p, b)
        },
        tagged_line_of(s, p) is None ==> forall|b: int|
            starts_line(s, b) ==> !#[trigger] stands_at(s, p, b),
{
    let at = lemma_tagged_line_from(s, p, 0);
    if tagged_line_of(s, p) is Some {
        lemma_line_end_is_first(s, at + p.len());
    }
    at
}

proof fn lemma_leading_word(s: Seq<char>)
    ensures
        leading_word(s).len() <= s.len(),
        leading_word(s) == s.take(leading_word(s).len() as int),
        forall|i: int| 0 <= i < leading_word(s).len() ==> !is_white(#[trigger] s[i]),
        leading_word(s).len() < s.len() ==> is_white(s[leading_word(s).len() as int]),
    decreases s.len(),
{
    if !(s.len() == 0 || is_white(s[0])) {
        let t = s.subrange(1, s.len() as int);
        lemma_leading_word(t);
        let n = leading_word(s).len() as int;
        assert forall|i: int| 0 <= i < n implies !is_white(#[trigger] s[i]) by {
            if i > 0 {
                assert(t[i - 1] == s[i]);
            }
        }
        if n < s.len() {
            assert(t[n - 1] == s[n]);
        }
        assert(leading_word(s) =~= s.take(n)) by {
            assert forall|i: int| 0 <= i < n implies leading_word(s)[i] == s[i] by {
                if i > 0 {
                    assert(t.take(n - 1)[i - 1] == t[i - 1]);
                }
            }
        }
    }
}

/// The first word of a text is the first stretch without white space: only white
/// space stands before it, and white space or nothing after it.
pub proof fn lemma_first_word(s: Seq<char>) -> (at: int)
    ensures
        0 <= at,
        at + first_word(s).len() <= s.len(),
        first_word(s) == s.subrange(at, at + first_word(s).len()),
        forall|i: int| 0 <= i < at ==> is_white(#[trigger] s[i]),
        forall|i: int| 0 <= i < first_word(s).len() ==> !is_white(#[trigger] first_word(s)[i]),
        at + first_word(s).len() < s.len() ==> is_white(s[at + first_word(s).len()]),
{
    let a = lemma_trimmed_start_cuts(s);
    let t = s.subrange(a, s.len() as int);
    lemma_leading_word(t);
    let n = leading_word(t).len() as int;
    assert(t.take(n) =~= s.subrange(a, a + n));
    if a + n < s.len() {
        assert(t[n] == s[a + n]);
    }
    a
}

/// A letter is the same letter in either case, and nothing else is the same as
/// another character.
pub proof fn lemma_case_is_ignored(a: char, b: char)
    ensures
        a == b ==> ascii_lower(a) == ascii_lower(b),
        0x41 <= a as u32 <= 0x5A && b as u32 == a as u32 + 32 ==> ascii_lower(a) == ascii_lower(b),
        ascii_lower(a) == ascii_lower(b) ==> a == b || (0x41 <= a as u32 <= 0x5A && b as u32 == a as u32
            + 32) || (0x41 <= b as u32 <= 0x5A && a as u32 == b as u32 + 32),
{
}

} // verus!
