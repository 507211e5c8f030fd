//! Character-level text utilities: whitespace trimming, decimal numbers,
//! substring search and ASCII case folding, each stated over `Seq<char>`.
use vstd::prelude::*;
use vstd::std_specs::iter::IteratorSpec;

verus! {

broadcast use vstd::string::group_string_axioms;

/// Unicode `White_Space`, the set that `char::is_whitespace` (and so `str::trim`) uses.
pub open spec fn is_ws(c: char) -> bool {
    let u = c as u32;
    ||| 9 <= u <= 13
    ||| u == 32
    ||| u == 0x85
    ||| u == 0xA0
    ||| u == 0x1680
    ||| 0x2000 <= u <= 0x200A
    ||| u == 0x2028
    ||| u == 0x2029
    ||| u == 0x202F
    ||| u == 0x205F
    ||| u == 0x3000
}

/// `s` with its leading whitespace removed.
pub open spec fn spec_trim_start(s: Seq<char>) -> Seq<char>
    decreases s.len(),
{
    if s.len() > 0 && is_ws(s[0]) {
        spec_trim_start(s.drop_first())
    } else {
        s
    }
}

/// `s` with its trailing whitespace removed.
pub open spec fn spec_trim_end(s: Seq<char>) -> Seq<char>
    decreases s.len(),
{
    if s.len() > 0 && is_ws(s.last()) {
        spec_trim_end(s.drop_last())
    } else {
        s
    }
}

/// `s` with whitespace removed at both ends, as `str::trim` gives it.
pub open spec fn spec_trim(s: Seq<char>) -> Seq<char> {
    spec_trim_end(spec_trim_start(s))
}

/// A string is blank when nothing but whitespace is in it.
pub open spec fn is_blank(s: Seq<char>) -> bool {
    spec_trim(s).len() == 0
}

/// Tests whether `c` is whitespace.
pub fn is_ws_char(c: char) -> (r: bool)
    ensures
        r == is_ws(c),
{
    let u = c as u32;
    (9 <= u && u <= 13) || u == 32 || u == 0x85 || u == 0xA0 || u == 0x1680 || (0x2000 <= u && u
        <= 0x200A) || u == 0x2028 || u == 0x2029 || u == 0x202F || u == 0x205F || u == 0x3000
}

proof fn lemma_trim_start_skip(s: Seq<char>, i: int)
    requires
        0 <= i <= s.len(),
        forall|j: int| 0 <= j < i ==> is_ws(#[trigger] s[j]),
    ensures
        spec_trim_start(s) == spec_trim_start(s.subrange(i, s.len() as int)),
    decreases i,
{
    if i > 0 {
        assert(s.drop_first().subrange(i - 1, s.drop_first().len() as int) =~= s.subrange(
            i,
            s.len() as int,
        ));
        assert forall|j: int| 0 <= j < i - 1 implies is_ws(#[trigger] s.drop_first()[j]) by {
            assert(s.drop_first()[j] == s[j + 1]);
        }
        lemma_trim_start_skip(s.drop_first(), i - 1);
    } else {
        assert(s.subrange(0, s.len() as int) =~= s);
    }
}

proof fn lemma_trim_end_take(s: Seq<char>, k: int)
    requires
        0 <= k <= s.len(),
        forall|j: int| k <= j < s.len() ==> is_ws(#[trigger] s[j]),
    ensures
        spec_trim_end(s) == spec_trim_end(s.subrange(0, k)),
    decreases s.len() - k,
{
    if k < s.len() {
        assert(s.drop_last().subrange(0, k) =~= s.subrange(0, k));
        assert forall|j: int| k <= j < s.drop_last().len() implies is_ws(
            #[trigger] s.drop_last()[j],
        ) by {
            assert(s.drop_last()[j] == s[j]);
        }
        assert(is_ws(s[s.len() - 1]));
        lemma_trim_end_take(s.drop_last(), k);
    } else {
        assert(s.subrange(0, s.len() as int) =~= s);
    }
}

/// The bounds `lo..hi` of `s` with whitespace removed at both ends.
fn trim_bounds(s: &Vec<char>) -> (r: (usize, usize))
    ensures
        r.0 <= r.1 <= s.len(),
        s@.subrange(r.0 as int, r.1 as int) == spec_trim(s@),
{
    let n = s.len();
    let mut lo: usize = 0;
    while lo < n && is_ws_char(s[lo])
        invariant
            lo <= n,
            n == s.len(),
            forall|j: int| 0 <= j < lo ==> is_ws(#[trigger] s@[j]),
        decreases n - lo,
    {
        lo = lo + 1;
    }
    proof {
        lemma_trim_start_skip(s@, lo as int);
        let t = s@.subrange(lo as int, n as int);
        if t.len() > 0 {
            assert(t[0] == s@[lo as int]);
        }
        assert(spec_trim_start(t) == t);
    }
    let ghost t = s@.subrange(lo as int, n as int);
    let mut hi: usize = n;
    while hi > lo && is_ws_char(s[hi - 1])
        invariant
            lo <= hi <= n,
            n == s.len(),
            t == s@.subrange(lo as int, n as int),
            forall|j: int| hi <= j < n ==> is_ws(#[trigger] s@[j]),
        decreases hi,
    {
        hi = hi - 1;
    }
    proof {
        let k = (hi - lo) as int;
        assert forall|j: int| k <= j < t.len() implies is_ws(#[trigger] t[j]) by {
            assert(t[j] == s@[lo + j]);
        }
        lemma_trim_end_take(t, k);
        let u = t.subrange(0, k);
        assert(u =~= s@.subrange(lo as int, hi as int));
        if u.len() > 0 {
            assert(u.last() == s@[hi - 1]);
        }
        assert(spec_trim_end(u) == u);
    }
    (lo, hi)
}

/// The characters of a string slice, in order.
pub fn str_chars(s: &str) -> (r: Vec<char>)
    ensures
        r@ == s@,
{
    let mut r: Vec<char> = Vec::new();
    for c in it: s.chars()
        invariant
            r@ == it.history(),
    {
        r.push(c);
    }
    r
}

/// Collects characters into a `String` (`FromIterator<char>` for `String`).
#[verifier::external_body]
pub(crate) fn string_from_chars(v: &[char]) -> (r: String)
    ensures
        r@ == v@,
{
    v.iter().collect()
}

/// `str::trim`, returned as an owned string.
pub fn trimmed(s: &str) -> (r: String)
    ensures
        r@ == spec_trim(s@),
{
    let cs = str_chars(s);
    let (lo, hi) = trim_bounds(&cs);
    let mut out: Vec<char> = Vec::new();
    let mut i = lo;
    while i < hi
        invariant
            lo <= i <= hi <= cs.len(),
            out@ == cs@.subrange(lo as int, i as int),
        decreases hi - i,
    {
        out.push(cs[i]);
        i = i + 1;
    }
    string_from_chars(out.as_slice())
}

/// Whether `s` holds nothing but whitespace (`s.trim().is_empty()`).
pub fn str_is_blank(s: &str) -> (r: bool)
    ensures
        r == is_blank(s@),
{
    let cs = str_chars(s);
    let (lo, hi) = trim_bounds(&cs);
    lo == hi
}

// ---------------------------------------------------------------- decimal numbers

/// The ASCII digit for `d < 10`.
pub open spec fn digit_char(d: nat) -> char {
    if d == 0 {
        '0'
    } else if d == 1 {
        '1'
    } else if d == 2 {
        '2'
    } else if d == 3 {
        '3'
    } else if d == 4 {
        '4'
    } else if d == 5 {
        '5'
    } else if d == 6 {
        '6'
    } else if d == 7 {
        '7'
    } else if d == 8 {
        '8'
    } else {
        '9'
    }
}

fn digit_of(d: u64) -> (c: char)
    requires
        d < 10,
    ensures
        c == digit_char(d as nat),
{
    if d == 0 {
        '0'
    } else if d == 1 {
        '1'
    } else if d == 2 {
        '2'
    } else if d == 3 {
        '3'
    } else if d == 4 {
        '4'
    } else if d == 5 {
        '5'
    } else if d == 6 {
        '6'
    } else if d == 7 {
        '7'
    } else if d == 8 {
        '8'
    } else {
        '9'
    }
}

/// The decimal digits of `n`, without sign or leading zeros (`u64::to_string`).
pub open spec fn spec_decimal(n: nat) -> Seq<char>
    decreases n,
{
    if n < 10 {
        seq![digit_char(n)]
    } else {
        spec_decimal(n / 10) + seq![digit_char(n % 10)]
    }
}

/// The decimal text of `n`.
pub fn decimal_chars(n: u64) -> (r: Vec<char>)
    ensures
        r@ == spec_decimal(n as nat),
    decreases n,
{
    if n < 10 {
        let c = digit_of(n);
        let mut v: Vec<char> = Vec::new();
        v.push(c);
        v
    } else {
        let mut v = decimal_chars(n / 10);
        let c = digit_of(n % 10);
        v.push(c);
        v
    }
}

/// `n.to_string()`.
pub fn u64_to_decimal(n: u64) -> (r: String)
    ensures
        r@ == spec_decimal(n as nat),
{
    let v = decimal_chars(n);
    string_from_chars(v.as_slice())
}

/// Why a text is not a `u64`, as `core::num::IntErrorKind` tells it.
#[derive(Debug, Clone, Copy, PartialEq, Eq, Structural)]
pub enum IntParseError {
    Empty,
    InvalidDigit,
    PosOverflow,
}

impl IntParseError {
    /// The text that `ParseIntError` displays for this kind.
    pub fn message(&self) -> (r: String)
        ensures
            r@ == self.spec_message(),
    {
        match self {
            IntParseError::Empty => "cannot parse integer from empty string".to_string(),
            IntParseError::InvalidDigit => "invalid digit found in string".to_string(),
            IntParseError::PosOverflow => "number too large to fit in target type".to_string(),
        }
    }

    pub open spec fn spec_message(&self) -> Seq<char> {
        match self {
            IntParseError::Empty => "cannot parse integer from empty string"@,
            IntParseError::InvalidDigit => "invalid digit found in string"@,
            IntParseError::PosOverflow => "number too large to fit in target type"@,
        }
    }
}

pub open spec fn is_digit(c: char) -> bool {
    '0' <= c <= '9'
}

/// Reads decimal digits left to right onto `acc`, failing at the first character that is
/// not a digit or at the first digit that takes the value past `u64::MAX`.
pub open spec fn spec_parse_digits(d: Seq<char>, acc: nat) -> Result<u64, IntParseError>
    decreases d.len(),
{
    if d.len() == 0 {
        Ok(acc as u64)
    } else if !is_digit(d[0]) {
        Err(IntParseError::InvalidDigit)
    } else {
        let v = acc * 10 + (d[0] as nat - 48);
        if v > u64::MAX {
            Err(IntParseError::PosOverflow)
        } else {
            spec_parse_digits(d.drop_first(), v as nat)
        }
    }
}

/// `<u64 as FromStr>::from_str`: an optional `+`, then one or more decimal digits.
pub open spec fn spec_parse_u64(s: Seq<char>) -> Result<u64, IntParseError> {
    if s.len() == 0 {
        Err(IntParseError::Empty)
    } else if (s[0] == '+' || s[0] == '-') && s.len() == 1 {
        Err(IntParseError::InvalidDigit)
    } else if s[0] == '+' {
        spec_parse_digits(s.drop_first(), 0)
    } else {
        spec_parse_digits(s, 0)
    }
}

fn parse_digits_from(d: &Vec<char>, start: usize) -> (r: Result<u64, IntParseError>)
    requires
        start <= d.len(),
    ensures
        r == spec_parse_digits(d@.subrange(start as int, d.len() as int), 0),
{
    let n = d.len();
    let mut acc: u64 = 0;
    let mut i = start;
    assert(d@.subrange(start as int, n as int) =~= d@.subrange(start as int, n as int));
    while i < n
        invariant
            start <= i <= n,
            n == d.len(),
            spec_parse_digits(d@.subrange(start as int, n as int), 0) == spec_parse_digits(
                d@.subrange(i as int, n as int),
                acc as nat,
            ),
        decreases n - i,
    {
        let c = d[i];
        let ghost rest = d@.subrange(i as int, n as int);
        assert(rest[0] == c);
        assert(rest.drop_first() =~= d@.subrange(i + 1, n as int));
        if !('0' <= c && c <= '9') {
            return Err(IntParseError::InvalidDigit);
        }
        let dv = (c as u32 - 48) as u64;
        if acc > 1844674407370955161 || (acc == 1844674407370955161 && dv > 5) {
            return Err(IntParseError::PosOverflow);
        }
        acc = acc * 10 + dv;
        i = i + 1;
    }
    assert(d@.subrange(n as int, n as int).len() == 0);
    Ok(acc)
}

/// `s.parse::<u64>()`.
pub fn parse_u64(s: &str) -> (r: Result<u64, IntParseError>)
    ensures
        r == spec_parse_u64(s@),
{
    let d = str_chars(s);
    if d.len() == 0 {
        return Err(IntParseError::Empty);
    }
    if (d[0] == '+' || d[0] == '-') && d.len() == 1 {
        return Err(IntParseError::InvalidDigit);
    }
    if d[0] == '+' {
        assert(d@.subrange(1, d@.len() as int) =~= d@.drop_first());
        parse_digits_from(&d, 1)
    } else {
        assert(d@.subrange(0, d@.len() as int) =~= d@);
        parse_digits_from(&d, 0)
    }
}

proof fn lemma_parse_digits_concat(d1: Seq<char>, d2: Seq<char>, acc: nat, v: u64)
    requires
        acc <= u64::MAX,
        spec_parse_digits(d1, acc) == Ok::<u64, IntParseError>(v),
    ensures
        spec_parse_digits(d1 + d2, acc) == spec_parse_digits(d2, v as nat),
    decreases d1.len(),
{
    if d1.len() > 0 {
        assert((d1 + d2)[0] == d1[0]);
        assert((d1 + d2).drop_first() =~= d1.drop_first() + d2);
        let w = acc * 10 + (d1[0] as nat - 48);
        lemma_parse_digits_concat(d1.drop_first(), d2, w as nat, v);
    } else {
        assert(d1 + d2 =~= d2);
    }
}

proof fn lemma_decimal_parses(n: nat)
    requires
        n <= u64::MAX,
    ensures
        spec_parse_digits(spec_decimal(n), 0) == Ok::<u64, IntParseError>(n as u64),
        spec_decimal(n).len() > 0,
        is_digit(spec_decimal(n)[0]),
    decreases n,
{
    reveal_with_fuel(spec_parse_digits, 2);
    if n < 10 {
        let s = spec_decimal(n);
        assert(s.drop_first().len() == 0);
    } else {
        lemma_decimal_parses(n / 10);
        let one = seq![digit_char(n % 10)];
        lemma_parse_digits_concat(spec_decimal(n / 10), one, 0, (n / 10) as u64);
        assert(one.drop_first().len() == 0);
        assert((spec_decimal(n / 10) + one)[0] == spec_decimal(n / 10)[0]);
    }
}

/// Parsing the decimal text of a number gives the number back.
pub proof fn decimal_roundtrip(n: u64)
    ensures
        spec_parse_u64(spec_decimal(n as nat)) == Ok::<u64, IntParseError>(n),
{
    lemma_decimal_parses(n as nat);
}

// ---------------------------------------------------------------- search and case

/// Whether two strings hold the same characters.
pub fn str_eq(a: &str, b: &str) -> (r: bool)
    ensures
        r == (a@ == b@),
{
    let x = str_chars(a);
    let y = str_chars(b);
    if x.len() != y.len() {
        return false;
    }
    let mut i: usize = 0;
    while i < x.len()
        invariant
            x@ == a@,
            y@ == b@,
            x.len() == y.len(),
            i <= x.len(),
            forall|k: int| 0 <= k < i ==> x@[k] == y@[k],
        decreases x.len() - i,
    {
        if x[i] != y[i] {
            return false;
        }
        i = i + 1;
    }
    assert(x@ =~= y@);
    true
}

/// `needle` occurs in `hay` at position `i`.
pub open spec fn occurs_at(hay: Seq<char>, needle: Seq<char>, i: int) -> bool {
    0 <= i && i + needle.len() <= hay.len() && hay.subrange(i, i + needle.len()) == needle
}

/// `str::contains` for a string pattern.
pub open spec fn spec_contains(hay: Seq<char>, needle: Seq<char>) -> bool {
    exists|i: int| occurs_at(hay, needle, i)
}

/// Whether `needle` occurs in `hay`.
pub fn contains_str(hay: &str, needle: &str) -> (r: bool)
    ensures
        r == spec_contains(hay@, needle@),
{
    let h = str_chars(hay);
    let n = str_chars(needle);
    if n.len() > h.len() {
        assert forall|i: int| !occurs_at(h@, n@, i) by {}
        return false;
    }
    let last = h.len() - n.len();
    let mut i: usize = 0;
    while i <= last
        invariant
            h@ == hay@,
            n@ == needle@,
            last == h.len() - n.len(),
            n.len() <= h.len(),
            forall|k: int| 0 <= k < i ==> !occurs_at(h@, n@, k),
        decreases last + 1 - i,
    {
        let mut j: usize = 0;
        let mut same = true;
        while j < n.len()
            invariant
                i <= last,
                last == h.len() - n.len(),
                j <= n.len(),
                same == (forall|m: int| 0 <= m < j ==> h@[i + m] == n@[m]),
            decreases n.len() - j,
        {
            if h[i + j] != n[j] {
                same = false;
            }
            j = j + 1;
        }
        if same {
            assert(h@.subrange(i as int, i + n.len()) =~= n@);
            assert(occurs_at(h@, n@, i as int));
            assert(spec_contains(h@, n@));
            return true;
        }
        assert(!occurs_at(h@, n@, i as int)) by {
            if occurs_at(h@, n@, i as int) {
                assert forall|m: int| 0 <= m < n.len() implies h@[i + m] == n@[m] by {
                    assert(h@.subrange(i as int, i + n.len())[m] == h@[i + m]);
                }
            }
        }
        i = i + 1;
    }
    false
}

/// `char::to_ascii_lowercase`.
pub open spec fn ascii_lower(c: char) -> char {
    if 'A' <= c <= 'Z' {
        ((c as u32) + 32) as char
    } else {
        c
    }
}

/// `str::eq_ignore_ascii_case`.
pub open spec fn eq_ignore_ascii_case(a: Seq<char>, b: Seq<char>) -> bool {
    a.len() == b.len() && forall|i: int| 0 <= i < a.len() ==> ascii_lower(a[i]) == ascii_lower(b[i])
}

fn lower_char(c: char) -> (r: char)
    ensures
        r == ascii_lower(c),
{
    if 'A' <= c && c <= 'Z' {
        ((c as u8) + 32) as char
    } else {
        c
    }
}

/// Compares two character sequences, ignoring ASCII case.
pub fn chars_eq_ignore_ascii_case(a: &[char], b: &[char]) -> (r: bool)
    ensures
        r == eq_ignore_ascii_case(a@, b@),
{
    if a.len() != b.len() {
        return false;
    }
    let mut i: usize = 0;
    while i < a.len()
        invariant
            a.len() == b.len(),
            i <= a.len(),
            forall|k: int| 0 <= k < i ==> ascii_lower(a@[k]) == ascii_lower(b@[k]),
        decreases a.len() - i,
    {
        if lower_char(a[i]) != lower_char(b[i]) {
            return false;
        }
        i = i + 1;
    }
    true
}

} // verus!
