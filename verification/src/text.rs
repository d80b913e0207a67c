//! Text helpers: character sequences, names, and decimal numbers as the
//! broker writes and reads them.
use vstd::prelude::*;

verus! {

/// Appends one character to a string (std's `String::push`): the string's
/// characters afterwards are the old ones followed by `c`.
#[verifier::external_body]
fn push_char(s: &mut String, c: char)
    ensures
        final(s)@ == old(s)@.push(c),
{
    s.push(c);
}

/// The characters of a string slice, in order.
pub fn chars_of(s: &str) -> (v: Vec<char>)
    ensures
        v@ == s@,
{
    let mut v: Vec<char> = Vec::new();
    for c in it: s.chars()
        invariant
            v@ == it.seq().take(it.index() as int),
            it.seq() == s@,
    {
        v.push(c);
    }
    v
}

/// A string made of the given characters.
pub fn string_from_chars(cs: &[char]) -> (s: String)
    ensures
        s@ == cs@,
{
    let mut s = String::new();
    let mut i: usize = 0;
    while i < cs.len()
        invariant
            i <= cs@.len(),
            s@ == cs@.subrange(0, i as int),
        decreases cs@.len() - i,
    {
        push_char(&mut s, cs[i]);
        i = i + 1;
        assert(s@ =~= cs@.subrange(0, i as int));
    }
    assert(cs@.subrange(0, cs@.len() as int) =~= cs@);
    s
}

/// An owned copy of a string slice.
pub fn string_from_str(s: &str) -> (r: String)
    ensures
        r@ == s@,
{
    s.to_owned()
}

/// `a` followed by `b`.
pub fn concat(a: &str, b: &str) -> (r: String)
    ensures
        r@ == a@ + b@,
{
    let mut r = string_from_str(a);
    r.append(b);
    r
}

/// `a`, `b` and `c` one after the other.
pub fn concat3(a: &str, b: &str, c: &str) -> (r: String)
    ensures
        r@ == a@ + b@ + c@,
{
    let mut r = string_from_str(a);
    r.append(b);
    r.append(c);
    r
}

/// A character allowed in names of topics, groups and consumers.
pub open spec fn name_char(c: char) -> bool {
    ||| ('a' <= c && c <= 'z')
    ||| ('A' <= c && c <= 'Z')
    ||| ('0' <= c && c <= '9')
    ||| c == '-'
    ||| c == '_'
    ||| c == '.'
}

/// A valid name: non-empty, of name characters only, and neither `.` nor
/// `..`.
pub open spec fn valid_name(s: Seq<char>) -> bool {
    &&& s.len() > 0
    &&& forall|i: int| 0 <= i < s.len() ==> name_char(#[trigger] s[i])
    &&& s != seq!['.']
    &&& s != seq!['.', '.']
}

pub fn is_name_char(c: char) -> (b: bool)
    ensures
        b == name_char(c),
{
    ('a' <= c && c <= 'z') || ('A' <= c && c <= 'Z') || ('0' <= c && c <= '9') || c == '-' || c
        == '_' || c == '.'
}

pub fn is_valid_name(s: &str) -> (b: bool)
    ensures
        b == valid_name(s@),
{
    let cs = chars_of(s);
    if cs.len() == 0 {
        return false;
    }
    if (cs.len() == 1 && cs[0] == '.') || (cs.len() == 2 && cs[0] == '.' && cs[1] == '.') {
        proof {
            if cs@.len() == 1 {
                assert(cs@ =~= seq!['.']);
            } else {
                assert(cs@ =~= seq!['.', '.']);
            }
        }
        return false;
    }
    proof {
        if cs@ == seq!['.'] {
            assert(cs@[0] == '.');
        }
        if cs@ == seq!['.', '.'] {
            assert(cs@[0] == '.' && cs@[1] == '.');
        }
    }
    let mut i: usize = 0;
    while i < cs.len()
        invariant
            i <= cs@.len(),
            cs@ == s@,
            forall|j: int| 0 <= j < i ==> name_char(#[trigger] cs@[j]),
        decreases cs@.len() - i,
    {
        if !is_name_char(cs[i]) {
            return false;
        }
        i = i + 1;
    }
    true
}

/// Whether `s` begins with `p`.
pub open spec fn has_prefix(s: Seq<char>, p: Seq<char>) -> bool {
    p.len() <= s.len() && s.subrange(0, p.len() as int) == p
}

/// Whether `s` ends with `p`.
pub open spec fn has_suffix(s: Seq<char>, p: Seq<char>) -> bool {
    p.len() <= s.len() && s.subrange(s.len() - p.len(), s.len() as int) == p
}

pub fn starts_with(s: &[char], p: &[char]) -> (b: bool)
    ensures
        b == has_prefix(s@, p@),
{
    if p.len() > s.len() {
        return false;
    }
    let mut i: usize = 0;
    while i < p.len()
        invariant
            i <= p@.len() <= s@.len(),
            forall|j: int| 0 <= j < i ==> s@[j] == p@[j],
        decreases p@.len() - i,
    {
        if s[i] != p[i] {
            assert(s@.subrange(0, p@.len() as int)[i as int] != p@[i as int]);
            return false;
        }
        i = i + 1;
    }
    assert(s@.subrange(0, p@.len() as int) =~= p@);
    true
}

pub fn ends_with(s: &[char], p: &[char]) -> (b: bool)
    ensures
        b == has_suffix(s@, p@),
{
    if p.len() > s.len() {
        return false;
    }
    let slen = s.len();
    let off = slen - p.len();
    let mut i: usize = 0;
    while i < p.len()
        invariant
            slen == s@.len(),
            i <= p@.len() <= s@.len(),
            off == s@.len() - p@.len(),
            forall|j: int| 0 <= j < i ==> s@[off + j] == p@[j],
        decreases p@.len() - i,
    {
        if s[off + i] != p[i] {
            assert(s@.subrange(off as int, s@.len() as int)[i as int] != p@[i as int]);
            return false;
        }
        i = i + 1;
    }
    assert(s@.subrange(off as int, s@.len() as int) =~= p@);
    true
}

/// Whether `p` occurs in `s` as a contiguous run of characters.
pub open spec fn occurs_in(s: Seq<char>, p: Seq<char>) -> bool {
    exists|i: int| 0 <= i && i + p.len() <= s.len() && #[trigger] s.subrange(i, i + p.len()) == p
}

pub fn contains_text(s: &[char], p: &[char]) -> (b: bool)
    ensures
        b == occurs_in(s@, p@),
{
    if p.len() > s.len() {
        return false;
    }
    if p.len() == 0 {
        assert(s@.subrange(0int, 0int + p@.len()) =~= p@);
        return true;
    }
    let slen = s.len();
    let last = slen - p.len();
    let mut i: usize = 0;
    while i <= last
        invariant
            slen == s@.len(),
            last == s@.len() - p@.len(),
            last < slen,
            i <= last + 1,
            forall|j: int| 0 <= j < i ==> #[trigger] s@.subrange(j, j + p@.len()) != p@,
        decreases last + 1 - i,
    {
        let mut k: usize = 0;
        let mut all = true;
        while k < p.len()
            invariant
                slen == s@.len(),
                k <= p@.len(),
                i <= last,
                last == s@.len() - p@.len(),
                all == forall|j: int| 0 <= j < k ==> s@[i + j] == p@[j],
            decreases p@.len() - k,
        {
            if s[i + k] != p[k] {
                all = false;
            }
            k = k + 1;
        }
        if all {
            assert(s@.subrange(i as int, i + p@.len()) =~= p@);
            return true;
        } else {
            let ghost w = choose|j: int| 0 <= j < p@.len() && s@[i + j] != p@[j];
            assert(s@.subrange(i as int, i + p@.len())[w] != p@[w]);
        }
        i = i + 1;
    }
    false
}

/// Whether a character is an ASCII decimal digit.
pub open spec fn is_digit(c: char) -> bool {
    '0' <= c && c <= '9'
}

/// The value of a decimal digit.
pub open spec fn digit_value(c: char) -> nat {
    (c as u32 - '0' as u32) as nat
}

/// The decimal digit of `d`, which is below ten.
pub open spec fn digit_char(d: nat) -> char {
    (d + '0' as u32) as char
}

/// Why text could not be read as an unsigned integer; the three kinds that
/// std's integer parsing distinguishes for unsigned types.
#[derive(Clone, Copy, PartialEq, Eq, Structural, Debug)]
pub enum IntErrorKind {
    Empty,
    InvalidDigit,
    PosOverflow,
}

/// The message std's integer parsing gives for each kind of failure.
pub open spec fn int_error_text(kind: IntErrorKind) -> Seq<char> {
    match kind {
        IntErrorKind::Empty => "cannot parse integer from empty string"@,
        IntErrorKind::InvalidDigit => "invalid digit found in string"@,
        IntErrorKind::PosOverflow => "number too large to fit in target type"@,
    }
}

impl IntErrorKind {
    pub fn text(&self) -> (s: &'static str)
        ensures
            s@ == int_error_text(*self),
    {
        match self {
            IntErrorKind::Empty => "cannot parse integer from empty string",
            IntErrorKind::InvalidDigit => "invalid digit found in string",
            IntErrorKind::PosOverflow => "number too large to fit in target type",
        }
    }
}

/// Reads the digits of `s` left to right, as std does: the first character
/// that is not a digit, or the first digit that takes the value above `max`,
/// ends the reading with that failure.
pub open spec fn digits_value(s: Seq<char>, max: nat) -> Result<nat, IntErrorKind>
    decreases s.len(),
{
    if s.len() == 0 {
        Ok(0)
    } else {
        match digits_value(s.drop_last(), max) {
            Err(e) => Err(e),
            Ok(v) => if !is_digit(s.last()) {
                Err(IntErrorKind::InvalidDigit)
            } else if v * 10 + digit_value(s.last()) > max {
                Err(IntErrorKind::PosOverflow)
            } else {
                Ok(v * 10 + digit_value(s.last()))
            },
        }
    }
}

/// The unsigned integer, at most `max`, that `s` spells in decimal, read as
/// std's `str::parse` reads unsigned integers: one leading `+` is allowed.
pub open spec fn parse_uint(s: Seq<char>, max: nat) -> Result<nat, IntErrorKind> {
    if s.len() == 0 {
        Err(IntErrorKind::Empty)
    } else if (s[0] == '+' || s[0] == '-') && s.len() == 1 {
        Err(IntErrorKind::InvalidDigit)
    } else if s[0] == '+' {
        digits_value(s.drop_first(), max)
    } else {
        digits_value(s, max)
    }
}

proof fn lemma_digits_value_bound(s: Seq<char>, max: nat)
    ensures
        digits_value(s, max) matches Ok(v) ==> v <= max,
    decreases s.len(),
{
    if s.len() > 0 {
        lemma_digits_value_bound(s.drop_last(), max);
    }
}

fn read_digits(cs: &[char], from: usize, max: u64) -> (r: Result<u64, IntErrorKind>)
    requires
        from <= cs@.len(),
    ensures
        r matches Ok(v) ==> digits_value(cs@.subrange(from as int, cs@.len() as int), max as nat)
            == Ok::<nat, IntErrorKind>(v as nat),
        r matches Err(e) ==> digits_value(cs@.subrange(from as int, cs@.len() as int), max as nat)
            == Err::<nat, IntErrorKind>(e),
{
    let mut acc: u64 = 0;
    let mut i: usize = from;
    assert(cs@.subrange(from as int, from as int) =~= Seq::<char>::empty());
    while i < cs.len()
        invariant
            from <= i <= cs@.len(),
            acc <= max,
            digits_value(cs@.subrange(from as int, i as int), max as nat) == Ok::<
                nat,
                IntErrorKind,
            >(acc as nat),
        decreases cs@.len() - i,
    {
        let c = cs[i];
        let ghost next = cs@.subrange(from as int, i + 1);
        assert(next.drop_last() =~= cs@.subrange(from as int, i as int));
        assert(next.last() == c);
        if !('0' <= c && c <= '9') {
            proof {
                lemma_digits_stay_failed(cs@, from as int, i + 1, IntErrorKind::InvalidDigit, max as nat);
            }
            return Err(IntErrorKind::InvalidDigit);
        }
        let d = (c as u32 - '0' as u32) as u64;
        let t: u128 = acc as u128 * 10 + d as u128;
        if t > max as u128 {
            proof {
                lemma_digits_stay_failed(cs@, from as int, i + 1, IntErrorKind::PosOverflow, max as nat);
            }
            return Err(IntErrorKind::PosOverflow);
        }
        acc = t as u64;
        i = i + 1;
    }
    Ok(acc)
}

/// Once the digits read so far have failed, reading more keeps that failure.
proof fn lemma_digits_stay_failed(cs: Seq<char>, from: int, to: int, e: IntErrorKind, max: nat)
    requires
        0 <= from <= to <= cs.len(),
        digits_value(cs.subrange(from, to), max) == Err::<nat, IntErrorKind>(e),
    ensures
        digits_value(cs.subrange(from, cs.len() as int), max) == Err::<nat, IntErrorKind>(e),
    decreases cs.len() - to,
{
    if to < cs.len() {
        let next = cs.subrange(from, to + 1);
        assert(next.drop_last() =~= cs.subrange(from, to));
        lemma_digits_stay_failed(cs, from, to + 1, e, max);
    }
}

/// Reads `s` as an unsigned decimal integer no larger than `max`.
pub fn parse_uint_text(s: &str, max: u64) -> (r: Result<u64, IntErrorKind>)
    ensures
        r matches Ok(v) ==> parse_uint(s@, max as nat) == Ok::<nat, IntErrorKind>(v as nat),
        r matches Err(e) ==> parse_uint(s@, max as nat) == Err::<nat, IntErrorKind>(e),
{
    let cs = chars_of(s);
    if cs.len() == 0 {
        return Err(IntErrorKind::Empty);
    }
    if (cs[0] == '+' || cs[0] == '-') && cs.len() == 1 {
        return Err(IntErrorKind::InvalidDigit);
    }
    if cs[0] == '+' {
        assert(cs@.subrange(1, cs@.len() as int) =~= s@.drop_first());
        read_digits(cs.as_slice(), 1, max)
    } else {
        assert(cs@.subrange(0, cs@.len() as int) =~= s@);
        read_digits(cs.as_slice(), 0, max)
    }
}

/// The decimal digits of `n`, without leading zeros.
pub open spec fn decimal(n: nat) -> Seq<char>
    decreases n,
{
    if n < 10 {
        seq![digit_char(n)]
    } else {
        decimal(n / 10).push(digit_char(n % 10))
    }
}

/// `k` zero characters.
pub open spec fn zeros(k: nat) -> Seq<char>
    decreases k,
{
    if k == 0 {
        Seq::empty()
    } else {
        zeros((k - 1) as nat).push('0')
    }
}

/// The decimal digits of `n`, left-padded with zeros to at least `width`
/// characters (what `format!("{n:0width$}")` gives).
pub open spec fn decimal_padded(n: nat, width: nat) -> Seq<char> {
    let d = decimal(n);
    if d.len() >= width {
        d
    } else {
        zeros((width - d.len()) as nat) + d
    }
}

pub proof fn lemma_decimal_shape(n: nat)
    ensures
        decimal(n).len() >= 1,
        forall|i: int| 0 <= i < decimal(n).len() ==> is_digit(#[trigger] decimal(n)[i]),
        n >= 10 ==> decimal(n)[0] != '0',
        n < 10 ==> decimal(n)[0] == digit_char(n),
    decreases n,
{
    if n >= 10 {
        lemma_decimal_shape(n / 10);
        assert forall|i: int| 0 <= i < decimal(n).len() implies is_digit(
            #[trigger] decimal(n)[i],
        ) by {
            if i < decimal(n / 10).len() {
                assert(decimal(n)[i] == decimal(n / 10)[i]);
            }
        }
    }
}

fn digit_of(d: u64) -> (c: char)
    requires
        d < 10,
    ensures
        c == digit_char(d as nat),
        is_digit(c),
        digit_value(c) == d,
{
    let c = ((d as u32) + ('0' as u32)) as u8 as char;
    c
}

/// The decimal digits of `n`.
pub fn decimal_chars(n: u64) -> (v: Vec<char>)
    ensures
        v@ == decimal(n as nat),
    decreases n,
{
    if n < 10 {
        let mut v = Vec::new();
        v.push(digit_of(n));
        assert(v@ =~= decimal(n as nat));
        v
    } else {
        let mut v = decimal_chars(n / 10);
        v.push(digit_of(n % 10));
        v
    }
}

/// The decimal digits of `n`, left-padded with zeros to `width` characters.
pub fn decimal_padded_chars(n: u64, width: usize) -> (v: Vec<char>)
    ensures
        v@ == decimal_padded(n as nat, width as nat),
{
    let d = decimal_chars(n);
    if d.len() >= width {
        return d;
    }
    let mut v: Vec<char> = Vec::new();
    let k = width - d.len();
    let mut i: usize = 0;
    while i < k
        invariant
            i <= k,
            v@ == zeros(i as nat),
        decreases k - i,
    {
        v.push('0');
        i = i + 1;
    }
    let mut j: usize = 0;
    while j < d.len()
        invariant
            j <= d@.len(),
            v@ == zeros(k as nat) + d@.subrange(0, j as int),
        decreases d@.len() - j,
    {
        v.push(d[j]);
        j = j + 1;
        assert(v@ =~= zeros(k as nat) + d@.subrange(0, j as int));
    }
    assert(d@.subrange(0, d@.len() as int) =~= d@);
    v
}

proof fn lemma_digit_char(d: nat)
    requires
        d < 10,
    ensures
        is_digit(digit_char(d)),
        digit_value(digit_char(d)) == d,
{
    assert(digit_char(d) as u32 == d + 48);
}

/// Reading a number's decimal digits gives the number back.
pub proof fn lemma_digits_value_decimal(n: nat, max: nat)
    requires
        n <= max,
    ensures
        digits_value(decimal(n), max) == Ok::<nat, IntErrorKind>(n),
    decreases n,
{
    if n < 10 {
        let s = decimal(n);
        assert(s.drop_last() =~= Seq::<char>::empty());
        assert(digits_value(s.drop_last(), max) == Ok::<nat, IntErrorKind>(0));
        lemma_digit_char(n);
        assert(s.last() == digit_char(n));
    } else {
        lemma_digits_value_decimal(n / 10, max);
        let s = decimal(n);
        assert(s.drop_last() =~= decimal(n / 10));
        lemma_digit_char(n % 10);
        assert(s.last() == digit_char(n % 10));
        assert(digits_value(s.drop_last(), max) == Ok::<nat, IntErrorKind>(n / 10));
        assert((n / 10) * 10 + n % 10 == n);
    }
}

/// Leading zeros do not change the value that digits are read as.
pub proof fn lemma_digits_value_zeros(k: nat, s: Seq<char>, max: nat)
    ensures
        digits_value(zeros(k) + s, max) == digits_value(s, max),
    decreases s.len(), k,
{
    if s.len() == 0 {
        lemma_digits_value_all_zeros(k, max);
        assert(zeros(k) + s =~= zeros(k));
    } else {
        assert((zeros(k) + s).drop_last() =~= zeros(k) + s.drop_last());
        lemma_digits_value_zeros(k, s.drop_last(), max);
    }
}

proof fn lemma_digits_value_all_zeros(k: nat, max: nat)
    ensures
        digits_value(zeros(k), max) == Ok::<nat, IntErrorKind>(0),
    decreases k,
{
    if k > 0 {
        lemma_digits_value_all_zeros((k - 1) as nat, max);
        assert(zeros(k).drop_last() =~= zeros((k - 1) as nat));
    }
}

/// Padded decimal text reads back as the number.
pub proof fn lemma_parse_decimal_padded(n: nat, width: nat, max: nat)
    requires
        n <= max,
    ensures
        parse_uint(decimal_padded(n, width), max) == Ok::<nat, IntErrorKind>(n),
{
    lemma_digits_value_decimal(n, max);
    lemma_decimal_shape(n);
    let d = decimal(n);
    let p = decimal_padded(n, width);
    if d.len() < width {
        lemma_digits_value_zeros((width - d.len()) as nat, d, max);
        lemma_zeros_index((width - d.len()) as nat);
        assert(p[0] == '0');
    } else {
        assert(is_digit(d[0]));
    }
}

proof fn lemma_zeros_index(k: nat)
    ensures
        zeros(k).len() == k,
        forall|i: int| 0 <= i < k ==> #[trigger] zeros(k)[i] == '0',
    decreases k,
{
    if k > 0 {
        lemma_zeros_index((k - 1) as nat);
        assert forall|i: int| 0 <= i < k implies #[trigger] zeros(k)[i] == '0' by {
            if i < k - 1 {
                assert(zeros(k)[i] == zeros((k - 1) as nat)[i]);
            }
        }
    }
}


/// The position of the first `c` in `s`, or the length of `s` when there is
/// none.
pub open spec fn first_index(s: Seq<char>, c: char) -> int
    decreases s.len(),
{
    if s.len() == 0 {
        0
    } else if s[0] == c {
        0
    } else {
        1 + first_index(s.drop_first(), c)
    }
}

pub proof fn lemma_first_index(s: Seq<char>, c: char, i: int)
    requires
        0 <= i <= s.len(),
        forall|j: int| 0 <= j < i ==> s[j] != c,
        i == s.len() || s[i] == c,
    ensures
        first_index(s, c) == i,
    decreases i,
{
    if i > 0 {
        assert forall|j: int| 0 <= j < i - 1 implies s.drop_first()[j] != c by {
            assert(s.drop_first()[j] == s[j + 1]);
        }
        lemma_first_index(s.drop_first(), c, i - 1);
    }
}

/// The position of the first `c` in `cs`, or its length when there is none.
pub fn find_first(cs: &[char], c: char) -> (i: usize)
    ensures
        i == first_index(cs@, c),
        i <= cs@.len(),
        forall|j: int| 0 <= j < i ==> cs@[j] != c,
        i < cs@.len() ==> cs@[i as int] == c,
{
    let mut i: usize = 0;
    while i < cs.len() && cs[i] != c
        invariant
            i <= cs@.len(),
            forall|j: int| 0 <= j < i ==> cs@[j] != c,
        decreases cs@.len() - i,
    {
        i = i + 1;
    }
    proof {
        lemma_first_index(cs@, c, i as int);
    }
    i
}

/// The position of the last `c` in `s`, or -1 when there is none.
pub open spec fn last_index(s: Seq<char>, c: char) -> int
    decreases s.len(),
{
    if s.len() == 0 {
        -1
    } else if s.last() == c {
        s.len() - 1
    } else {
        last_index(s.drop_last(), c)
    }
}

pub proof fn lemma_last_index(s: Seq<char>, c: char, i: int)
    requires
        -1 <= i < s.len(),
        forall|j: int| i < j < s.len() ==> s[j] != c,
        i == -1 || s[i] == c,
    ensures
        last_index(s, c) == i,
    decreases s.len(),
{
    if s.len() > 0 && i < s.len() - 1 {
        assert forall|j: int| i < j < s.len() - 1 implies s.drop_last()[j] != c by {
            assert(s.drop_last()[j] == s[j]);
        }
        lemma_last_index(s.drop_last(), c, i);
    }
}

/// The text of `cs` from `from` to `to`.
pub fn sub_chars(cs: &[char], from: usize, to: usize) -> (v: Vec<char>)
    requires
        from <= to <= cs@.len(),
    ensures
        v@ == cs@.subrange(from as int, to as int),
{
    let mut v: Vec<char> = Vec::new();
    let mut i: usize = from;
    while i < to
        invariant
            from <= i <= to <= cs@.len(),
            v@ == cs@.subrange(from as int, i as int),
        decreases to - i,
    {
        v.push(cs[i]);
        i = i + 1;
        assert(v@ =~= cs@.subrange(from as int, i as int));
    }
    v
}

/// The lines of `s`, as std's `str::lines` gives them: split after each
/// `\n`, that `\n` and a `\r` just before it removed, with no empty last line
/// after a final `\n`.
pub open spec fn lines(s: Seq<char>) -> Seq<Seq<char>>
    decreases s.len(),
{
    if s.len() == 0 {
        Seq::empty()
    } else {
        let i = first_index(s, '\n');
        proof {
            lemma_first_index_bounds(s, '\n');
        }
        if i >= s.len() {
            seq![s]
        } else {
            let raw = s.subrange(0, i);
            let line = if raw.len() > 0 && raw.last() == '\r' {
                raw.drop_last()
            } else {
                raw
            };
            seq![line] + lines(s.subrange(i + 1, s.len() as int))
        }
    }
}

pub proof fn lemma_first_index_bounds(s: Seq<char>, c: char)
    ensures
        0 <= first_index(s, c) <= s.len(),
        first_index(s, c) < s.len() ==> s[first_index(s, c)] == c,
        forall|j: int| 0 <= j < first_index(s, c) ==> s[j] != c,
    decreases s.len(),
{
    if s.len() > 0 && s[0] != c {
        lemma_first_index_bounds(s.drop_first(), c);
        assert forall|j: int| 0 <= j < first_index(s, c) implies s[j] != c by {
            if j > 0 {
                assert(s[j] == s.drop_first()[j - 1]);
            }
        }
    }
}

/// The lines of `s`.
pub fn split_lines(s: &[char]) -> (out: Vec<Vec<char>>)
    ensures
        out@.len() == lines(s@).len(),
        forall|i: int| 0 <= i < out@.len() ==> #[trigger] out@[i]@ == lines(s@)[i],
{
    let mut out: Vec<Vec<char>> = Vec::new();
    let mut pos: usize = 0;
    let len = s.len();
    proof {
        assert(s@.subrange(0, len as int) =~= s@);
        assert(Seq::new(out@.len(), |i: int| out@[i]@) + lines(s@) =~= lines(s@));
    }
    while pos < len
        invariant
            len == s@.len(),
            pos <= len,
            lines(s@) == Seq::new(out@.len(), |i: int| out@[i]@) + lines(
                s@.subrange(pos as int, len as int),
            ),
        decreases len - pos,
    {
        let rest = sub_chars(s, pos, len);
        let i = find_first(rest.as_slice(), '\n');
        proof {
            lemma_first_index(rest@, '\n', i as int);
        }
        let ghost before = Seq::new(out@.len(), |k: int| out@[k]@);
        if i >= rest.len() {
            out.push(rest);
            proof {
                assert(Seq::new(out@.len(), |k: int| out@[k]@) =~= before.push(
                    s@.subrange(pos as int, len as int),
                ));
                assert(s@.subrange(len as int, len as int) =~= Seq::<char>::empty());
                assert(lines(s@.subrange(pos as int, len as int)) == seq![
                    s@.subrange(pos as int, len as int),
                ]);
                assert(before + seq![s@.subrange(pos as int, len as int)] =~= before.push(
                    s@.subrange(pos as int, len as int),
                ));
            }
            pos = len;
        } else {
            let line = if i > 0 && rest[i - 1] == '\r' {
                sub_chars(rest.as_slice(), 0, i - 1)
            } else {
                sub_chars(rest.as_slice(), 0, i)
            };
            proof {
                let raw = rest@.subrange(0, i as int);
                if i > 0 && rest@[i - 1] == '\r' {
                    assert(line@ =~= raw.drop_last());
                }
                assert(rest@.subrange(i + 1, rest@.len() as int) =~= s@.subrange(
                    pos + i + 1,
                    len as int,
                ));
            }
            out.push(line);
            proof {
                assert(Seq::new(out@.len(), |k: int| out@[k]@) =~= before.push(line@));
                assert(before + (seq![line@] + lines(s@.subrange(pos + i + 1, len as int)))
                    =~= before.push(line@) + lines(s@.subrange(pos + i + 1, len as int)));
            }
            pos = pos + i + 1;
        }
    }
    proof {
        assert(s@.subrange(len as int, len as int) =~= Seq::<char>::empty());
        assert(Seq::new(out@.len(), |k: int| out@[k]@) + Seq::<Seq<char>>::empty() =~= Seq::new(
            out@.len(),
            |k: int| out@[k]@,
        ));
    }
    out
}

/// White space as Unicode's `White_Space` property, which std's `trim` uses.
pub open spec fn is_white(c: char) -> bool {
    ||| c == '\t'
    ||| c == '\n'
    ||| c == '\u{0B}'
    ||| c == '\u{0C}'
    ||| c == '\r'
    ||| c == ' '
    ||| c == '\u{85}'
    ||| c == '\u{A0}'
    ||| c == '\u{1680}'
    ||| ('\u{2000}' <= c && c <= '\u{200A}')
    ||| c == '\u{2028}'
    ||| c == '\u{2029}'
    ||| c == '\u{202F}'
    ||| c == '\u{205F}'
    ||| c == '\u{3000}'
}

pub fn is_white_char(c: char) -> (b: bool)
    ensures
        b == is_white(c),
{
    c == '\t' || c == '\n' || c == '\u{0B}' || c == '\u{0C}' || c == '\r' || c == ' ' || c
        == '\u{85}' || c == '\u{A0}' || c == '\u{1680}' || ('\u{2000}' <= c && c <= '\u{200A}')
        || c == '\u{2028}' || c == '\u{2029}' || c == '\u{202F}' || c == '\u{205F}' || c
        == '\u{3000}'
}

/// `s` without white space at its start.
pub open spec fn trim_white_start(s: Seq<char>) -> Seq<char>
    decreases s.len(),
{
    if s.len() > 0 && is_white(s[0]) {
        trim_white_start(s.drop_first())
    } else {
        s
    }
}

/// `s` without white space at its end.
pub open spec fn trim_white_end(s: Seq<char>) -> Seq<char>
    decreases s.len(),
{
    if s.len() > 0 && is_white(s.last()) {
        trim_white_end(s.drop_last())
    } else {
        s
    }
}

/// `s` without white space at either end (std's `str::trim`).
pub open spec fn trim_white(s: Seq<char>) -> Seq<char> {
    trim_white_end(trim_white_start(s))
}

pub proof fn lemma_trim_white_start_at(s: Seq<char>, i: int)
    requires
        0 <= i <= s.len(),
        forall|j: int| 0 <= j < i ==> is_white(#[trigger] s[j]),
        i == s.len() || !is_white(s[i]),
    ensures
        trim_white_start(s) == s.subrange(i, s.len() as int),
    decreases i,
{
    if i == 0 {
        assert(s.subrange(0, s.len() as int) =~= s);
    } else {
        assert(is_white(s[0]));
        assert forall|j: int| 0 <= j < i - 1 implies is_white(#[trigger] s.drop_first()[j]) by {
            assert(s.drop_first()[j] == s[j + 1]);
        }
        lemma_trim_white_start_at(s.drop_first(), i - 1);
        assert(s.drop_first().subrange(i - 1, s.len() - 1) =~= s.subrange(i, s.len() as int));
    }
}

pub proof fn lemma_trim_white_end_at(s: Seq<char>, k: int)
    requires
        0 <= k <= s.len(),
        forall|j: int| k <= j < s.len() ==> is_white(#[trigger] s[j]),
        k == 0 || !is_white(s[k - 1]),
    ensures
        trim_white_end(s) == s.subrange(0, k),
    decreases s.len() - k,
{
    if k == s.len() {
        assert(s.subrange(0, k) =~= s);
    } else {
        assert(is_white(s.last()));
        assert forall|j: int| k <= j < s.len() - 1 implies is_white(#[trigger] s.drop_last()[j]) by {
            assert(s.drop_last()[j] == s[j]);
        }
        lemma_trim_white_end_at(s.drop_last(), k);
        assert(s.drop_last().subrange(0, k) =~= s.subrange(0, k));
    }
}

/// `s` without white space at either end.
pub fn trim_white_chars(s: &[char]) -> (v: Vec<char>)
    ensures
        v@ == trim_white(s@),
{
    let len = s.len();
    let mut i: usize = 0;
    while i < len && is_white_char(s[i])
        invariant
            len == s@.len(),
            i <= len,
            forall|j: int| 0 <= j < i ==> is_white(#[trigger] s@[j]),
        decreases len - i,
    {
        i = i + 1;
    }
    proof {
        lemma_trim_white_start_at(s@, i as int);
    }
    let mut k: usize = len;
    while k > i && is_white_char(s[k - 1])
        invariant
            len == s@.len(),
            i <= k <= len,
            forall|j: int| k <= j < len ==> is_white(#[trigger] s@[j]),
        decreases k,
    {
        k = k - 1;
    }
    proof {
        let t = s@.subrange(i as int, len as int);
        assert forall|j: int| k - i <= j < t.len() implies is_white(#[trigger] t[j]) by {
            assert(t[j] == s@[i + j]);
        }
        if k > i {
            assert(t[k - i - 1] == s@[k - 1]);
        }
        lemma_trim_white_end_at(t, k - i);
        assert(t.subrange(0, k - i) =~= s@.subrange(i as int, k as int));
    }
    sub_chars(s, i, k)
}


/// The position of the last `c` in `cs`, if there is one.
pub fn find_last(cs: &[char], c: char) -> (r: Option<usize>)
    ensures
        r matches Some(i) ==> i < cs@.len() && last_index(cs@, c) == i,
        r is None ==> last_index(cs@, c) == -1,
{
    let mut k: usize = cs.len();
    while k > 0 && cs[k - 1] != c
        invariant
            k <= cs@.len(),
            forall|j: int| k <= j < cs@.len() ==> cs@[j] != c,
        decreases k,
    {
        k = k - 1;
    }
    if k == 0 {
        proof {
            lemma_last_index(cs@, c, -1);
        }
        None
    } else {
        proof {
            lemma_last_index(cs@, c, k - 1);
        }
        Some(k - 1)
    }
}

} // verus!
