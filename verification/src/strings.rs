//! Text as sequences of chars: splitting, trimming, prefixes, small
//! integers, and the std string calls that the header parsers rely on.
use vstd::prelude::*;

verus! {

// ---------------------------------------------------------------------------
// std calls.
// ---------------------------------------------------------------------------

/// The lowercase form that `str::to_lowercase` gives of a string.
pub uninterp spec fn lowercase(s: Seq<char>) -> Seq<char>;

/// the lowercase of text: `A`-`Z` to `a`-`z` for ASCII text, else what
/// `str::to_lowercase` gives
pub open spec fn lower_s(s: Seq<char>) -> Seq<char> {
    if all_ascii(s) {
        s.map_values(|c: char| ascii_lower_char(c))
    } else {
        lowercase(s)
    }
}

/// every char is ASCII
pub open spec fn all_ascii(s: Seq<char>) -> bool {
    forall|i: int| 0 <= i < s.len() ==> (s[i] as u32) < 128
}

/// the ASCII lowercase of a char
pub open spec fn ascii_lower_char(c: char) -> char {
    if 'A' <= c <= 'Z' {
        ((c as u32) + 32) as char
    } else {
        c
    }
}

/// `str::to_lowercase`: the result is named by `lowercase`.
#[verifier::external_body]
fn to_lowercase(s: &str) -> (r: String)
    ensures
        r@ == lowercase(s@),
{
    s.to_lowercase()
}

/// `String::push`: appends one char.
#[verifier::external_body]
pub(crate) fn string_push(s: &mut String, c: char)
    ensures
        final(s)@ == old(s)@.push(c),
{
    s.push(c)
}

// ---------------------------------------------------------------------------
// Conversions.
// ---------------------------------------------------------------------------

/// the chars of a string slice
pub fn chars_of(s: &str) -> (r: Vec<char>)
    ensures
        r@ == s@,
{
    let mut v: Vec<char> = Vec::new();
    for c in it: s.chars()
        invariant
            v@ == it.seq().take(it.index() as int),
    {
        v.push(c);
    }
    proof {
        broadcast use vstd::string::axiom_spec_iter;
    }
    assert(v@ =~= s@);
    v
}

/// a string of the given chars
pub fn string_of(v: &[char]) -> (r: String)
    ensures
        r@ == v@,
{
    let mut s = String::new();
    let mut i: usize = 0;
    while i < v.len()
        invariant
            i <= v@.len(),
            s@ == v@.take(i as int),
        decreases v@.len() - i,
    {
        string_push(&mut s, v[i]);
        i += 1;
        assert(s@ =~= v@.take(i as int));
    }
    assert(v@.take(v@.len() as int) =~= v@);
    s
}

/// the lowercase chars of the given chars; ASCII text is mapped here,
/// other text goes through `str::to_lowercase`
pub fn lower_chars(v: &[char]) -> (r: Vec<char>)
    ensures
        r@ == lower_s(v@),
{
    let mut i: usize = 0;
    while i < v.len()
        invariant
            i <= v@.len(),
            forall|j: int| 0 <= j < i ==> (v@[j] as u32) < 128,
        decreases v@.len() - i,
    {
        if (v[i] as u32) >= 128 {
            let s = string_of(v);
            let l = to_lowercase(s.as_str());
            return chars_of(l.as_str());
        }
        i += 1;
    }
    let mut r: Vec<char> = Vec::new();
    let mut k: usize = 0;
    while k < v.len()
        invariant
            k <= v@.len(),
            all_ascii(v@),
            r@ == v@.take(k as int).map_values(|c: char| ascii_lower_char(c)),
        decreases v@.len() - k,
    {
        let c = v[k];
        let l = if 'A' <= c && c <= 'Z' {
            ((c as u8) + 32) as char
        } else {
            c
        };
        r.push(l);
        k += 1;
        assert(r@ =~= v@.take(k as int).map_values(|c: char| ascii_lower_char(c)));
    }
    assert(v@.take(k as int) =~= v@);
    r
}

/// a copy of `v[start..end]`
pub fn sub_chars(v: &[char], start: usize, end: usize) -> (r: Vec<char>)
    requires
        start <= end <= v@.len(),
    ensures
        r@ == v@.subrange(start as int, end as int),
{
    let mut r: Vec<char> = Vec::new();
    let mut i = start;
    while i < end
        invariant
            start <= i <= end <= v@.len(),
            r@ == v@.subrange(start as int, i as int),
        decreases end - i,
    {
        r.push(v[i]);
        i += 1;
        assert(r@ =~= v@.subrange(start as int, i as int));
    }
    r
}

// ---------------------------------------------------------------------------
// Whitespace and trimming (Unicode White_Space, as `char::is_whitespace`).
// ---------------------------------------------------------------------------

/// the chars with the Unicode White_Space property
pub open spec fn is_ws(c: char) -> bool {
    let u = c as u32;
    (0x09 <= u <= 0x0d) || u == 0x20 || u == 0x85 || u == 0xa0 || u == 0x1680 || (0x2000 <= u
        <= 0x200a) || u == 0x2028 || u == 0x2029 || u == 0x202f || u == 0x205f || u == 0x3000
}

/// `char::is_whitespace`
pub fn is_whitespace(c: char) -> (r: bool)
    ensures
        r == is_ws(c),
{
    let u = c as u32;
    (0x09 <= u && u <= 0x0d) || u == 0x20 || u == 0x85 || u == 0xa0 || u == 0x1680 || (0x2000 <= u
        && u <= 0x200a) || u == 0x2028 || u == 0x2029 || u == 0x202f || u == 0x205f || u == 0x3000
}

/// `s` without its leading whitespace
pub open spec fn trim_start_s(s: Seq<char>) -> Seq<char>
    decreases s.len(),
{
    if s.len() > 0 && is_ws(s[0]) {
        trim_start_s(s.drop_first())
    } else {
        s
    }
}

/// `s` without its trailing whitespace
pub open spec fn trim_end_s(s: Seq<char>) -> Seq<char>
    decreases s.len(),
{
    if s.len() > 0 && is_ws(s.last()) {
        trim_end_s(s.drop_last())
    } else {
        s
    }
}

/// `s` without leading and trailing whitespace
pub open spec fn trim_s(s: Seq<char>) -> Seq<char> {
    trim_end_s(trim_start_s(s))
}

/// `s` without the leading and trailing copies of `c`
pub open spec fn trim_char_s(s: Seq<char>, c: char) -> Seq<char> {
    trim_end_char(trim_start_char(s, c), c)
}

/// `s` without its leading copies of `c`
pub open spec fn trim_start_char(s: Seq<char>, c: char) -> Seq<char>
    decreases s.len(),
{
    if s.len() > 0 && s[0] == c {
        trim_start_char(s.drop_first(), c)
    } else {
        s
    }
}

/// `s` without its trailing copies of `c`
pub open spec fn trim_end_char(s: Seq<char>, c: char) -> Seq<char>
    decreases s.len(),
{
    if s.len() > 0 && s.last() == c {
        trim_end_char(s.drop_last(), c)
    } else {
        s
    }
}

proof fn lemma_trim_start_skip(s: Seq<char>, i: int)
    requires
        0 <= i <= s.len(),
        forall|j: int| 0 <= j < i ==> is_ws(s[j]),
    ensures
        trim_start_s(s) == trim_start_s(s.skip(i)),
    decreases i,
{
    if i > 0 {
        assert(s.drop_first().skip(i - 1) =~= s.skip(i));
        lemma_trim_start_skip(s.drop_first(), i - 1);
    } else {
        assert(s.skip(0) =~= s);
    }
}

proof fn lemma_trim_end_take(s: Seq<char>, i: int)
    requires
        0 <= i <= s.len(),
        forall|j: int| i <= j < s.len() ==> is_ws(s[j]),
    ensures
        trim_end_s(s) == trim_end_s(s.take(i)),
    decreases s.len() - i,
{
    if i < s.len() {
        assert(s.drop_last().take(i) =~= s.take(i));
        lemma_trim_end_take(s.drop_last(), i);
    } else {
        assert(s.take(i) =~= s);
    }
}

/// the chars of `s` without leading whitespace
pub fn trim_start(s: &[char]) -> (r: Vec<char>)
    ensures
        r@ == trim_start_s(s@),
{
    let mut i: usize = 0;
    while i < s.len() && is_whitespace(s[i])
        invariant
            i <= s@.len(),
            forall|j: int| 0 <= j < i ==> is_ws(s@[j]),
        decreases s@.len() - i,
    {
        i += 1;
    }
    proof {
        lemma_trim_start_skip(s@, i as int);
    }
    let r = sub_chars(s, i, s.len());
    assert(r@ =~= s@.skip(i as int));
    r
}

/// the chars of `s` without leading and trailing whitespace
pub fn trim(s: &[char]) -> (r: Vec<char>)
    ensures
        r@ == trim_s(s@),
{
    let t = trim_start(s);
    let mut i: usize = t.len();
    while i > 0 && is_whitespace(t[i - 1])
        invariant
            i <= t@.len(),
            forall|j: int| i <= j < t@.len() ==> is_ws(t@[j]),
        decreases i,
    {
        i -= 1;
    }
    proof {
        lemma_trim_end_take(t@, i as int);
    }
    let r = sub_chars(t.as_slice(), 0, i);
    assert(r@ =~= t@.take(i as int));
    r
}

proof fn lemma_trim_start_char_skip(s: Seq<char>, c: char, i: int)
    requires
        0 <= i <= s.len(),
        forall|j: int| 0 <= j < i ==> s[j] == c,
    ensures
        trim_start_char(s, c) == trim_start_char(s.skip(i), c),
    decreases i,
{
    if i > 0 {
        assert(s.drop_first().skip(i - 1) =~= s.skip(i));
        lemma_trim_start_char_skip(s.drop_first(), c, i - 1);
    } else {
        assert(s.skip(0) =~= s);
    }
}

proof fn lemma_trim_end_char_take(s: Seq<char>, c: char, i: int)
    requires
        0 <= i <= s.len(),
        forall|j: int| i <= j < s.len() ==> s[j] == c,
    ensures
        trim_end_char(s, c) == trim_end_char(s.take(i), c),
    decreases s.len() - i,
{
    if i < s.len() {
        assert(s.drop_last().take(i) =~= s.take(i));
        lemma_trim_end_char_take(s.drop_last(), c, i);
    } else {
        assert(s.take(i) =~= s);
    }
}

/// the chars of `s` without leading and trailing copies of `c`
pub fn trim_char(s: &[char], c: char) -> (r: Vec<char>)
    ensures
        r@ == trim_char_s(s@, c),
{
    let mut i: usize = 0;
    while i < s.len() && s[i] == c
        invariant
            i <= s@.len(),
            forall|j: int| 0 <= j < i ==> s@[j] == c,
        decreases s@.len() - i,
    {
        i += 1;
    }
    proof {
        lemma_trim_start_char_skip(s@, c, i as int);
    }
    let t = sub_chars(s, i, s.len());
    assert(t@ =~= s@.skip(i as int));
    let mut e: usize = t.len();
    while e > 0 && t[e - 1] == c
        invariant
            e <= t@.len(),
            forall|j: int| e <= j < t@.len() ==> t@[j] == c,
        decreases e,
    {
        e -= 1;
    }
    proof {
        lemma_trim_end_char_take(t@, c, e as int);
    }
    let r = sub_chars(t.as_slice(), 0, e);
    assert(r@ =~= t@.take(e as int));
    r
}

// ---------------------------------------------------------------------------
// Prefixes and splitting.
// ---------------------------------------------------------------------------

/// `s` starts with `p`
pub open spec fn starts_with_s(s: Seq<char>, p: Seq<char>) -> bool {
    p.len() <= s.len() && s.take(p.len() as int) == p
}

/// whether `s` starts with `p`
pub fn starts_with(s: &[char], p: &[char]) -> (r: bool)
    ensures
        r == starts_with_s(s@, p@),
{
    if p.len() > s.len() {
        return false;
    }
    let mut i: usize = 0;
    while i < p.len()
        invariant
            p@.len() <= s@.len(),
            i <= p@.len(),
            forall|j: int| 0 <= j < i ==> s@[j] == p@[j],
        decreases p@.len() - i,
    {
        if s[i] != p[i] {
            assert(s@.take(p@.len() as int)[i as int] != p@[i as int]);
            return false;
        }
        i += 1;
    }
    assert(s@.take(p@.len() as int) =~= p@);
    true
}

/// whether the two char sequences are equal
pub fn chars_eq(a: &[char], b: &[char]) -> (r: bool)
    ensures
        r == (a@ == b@),
{
    if a.len() != b.len() {
        return false;
    }
    let r = starts_with(a, b);
    assert(a@.take(b@.len() as int) =~= a@);
    r
}

/// `s` with every leading copy of the non-empty `p` removed
pub open spec fn strip_prefix_all(s: Seq<char>, p: Seq<char>) -> Seq<char>
    decreases s.len(),
{
    if p.len() > 0 && starts_with_s(s, p) {
        strip_prefix_all(s.skip(p.len() as int), p)
    } else {
        s
    }
}

/// the chars of `s` with every leading copy of `p` removed
pub fn trim_start_matches(s: &[char], p: &[char]) -> (r: Vec<char>)
    ensures
        r@ == strip_prefix_all(s@, p@),
{
    let mut cur = sub_chars(s, 0, s.len());
    assert(cur@ =~= s@);
    if p.len() == 0 {
        return cur;
    }
    while starts_with(cur.as_slice(), p)
        invariant
            p@.len() > 0,
            strip_prefix_all(cur@, p@) == strip_prefix_all(s@, p@),
        decreases cur@.len(),
    {
        let n = cur.len();
        cur = sub_chars(cur.as_slice(), p.len(), n);
    }
    cur
}

/// `s` cut at every `sep`; there is always at least one piece
pub open spec fn split_on(s: Seq<char>, sep: char) -> Seq<Seq<char>>
    decreases s.len(),
{
    if s.len() == 0 {
        seq![Seq::empty()]
    } else {
        let r = split_on(s.drop_first(), sep);
        if s[0] == sep {
            seq![Seq::<char>::empty()] + r
        } else {
            r.update(0, seq![s[0]] + r[0])
        }
    }
}

pub proof fn lemma_split_on_nonempty(s: Seq<char>, sep: char)
    ensures
        split_on(s, sep).len() >= 1,
    decreases s.len(),
{
    if s.len() > 0 {
        lemma_split_on_nonempty(s.drop_first(), sep);
    }
}

/// splitting `s.skip(i)` is splitting `s` after the last separator before `i`
proof fn lemma_split_step(s: Seq<char>, sep: char, start: int, i: int)
    requires
        0 <= start <= i < s.len(),
        forall|j: int| start <= j < i ==> s[j] != sep,
    ensures
        s[i] == sep ==> split_on(s.skip(start), sep) == seq![s.subrange(start, i)] + split_on(
            s.skip(i + 1),
            sep,
        ),
    decreases i - start,
{
    let t = s.skip(start);
    lemma_split_on_nonempty(s.skip(start + 1), sep);
    assert(t.drop_first() =~= s.skip(start + 1));
    if start < i {
        lemma_split_step(s, sep, start + 1, i);
        if s[i] == sep {
            assert(seq![s[start]] + s.subrange(start + 1, i) =~= s.subrange(start, i));
            let r = split_on(s.skip(start + 1), sep);
            assert(r.update(0, seq![s[start]] + r[0]) =~= seq![s.subrange(start, i)] + split_on(
                s.skip(i + 1),
                sep,
            ));
        }
    } else {
        if s[i] == sep {
            assert(s.subrange(start, i) =~= Seq::<char>::empty());
        }
    }
}

proof fn lemma_split_tail(s: Seq<char>, sep: char, start: int)
    requires
        0 <= start <= s.len(),
        forall|j: int| start <= j < s.len() ==> s[j] != sep,
    ensures
        split_on(s.skip(start), sep) == seq![s.skip(start)],
    decreases s.len() - start,
{
    let t = s.skip(start);
    if start < s.len() {
        assert(t.drop_first() =~= s.skip(start + 1));
        lemma_split_tail(s, sep, start + 1);
        assert(seq![s[start]] + s.skip(start + 1) =~= t);
        assert(split_on(t, sep) =~= seq![t]);
    } else {
        assert(t =~= Seq::<char>::empty());
    }
}

/// the pieces of `s` between the copies of `sep`
pub fn split(s: &[char], sep: char) -> (r: Vec<Vec<char>>)
    ensures
        r@.len() == split_on(s@, sep).len(),
        forall|i: int| 0 <= i < r@.len() ==> #[trigger] r@[i]@ == split_on(s@, sep)[i],
{
    let mut out: Vec<Vec<char>> = Vec::new();
    let mut start: usize = 0;
    let mut i: usize = 0;
    let ghost mut pieces: Seq<Seq<char>> = Seq::empty();
    proof {
        assert(s@.skip(0) =~= s@);
        assert(split_on(s@, sep) =~= pieces + split_on(s@.skip(0), sep));
    }
    while i < s.len()
        invariant
            start <= i <= s@.len(),
            forall|j: int| start <= j < i ==> s@[j] != sep,
            out@.len() == pieces.len(),
            forall|k: int| 0 <= k < out@.len() ==> #[trigger] out@[k]@ == pieces[k],
            split_on(s@, sep) == pieces + split_on(s@.skip(start as int), sep),
        decreases s@.len() - i,
    {
        if s[i] == sep {
            proof {
                lemma_split_step(s@, sep, start as int, i as int);
            }
            let piece = sub_chars(s, start, i);
            out.push(piece);
            proof {
                let old_pieces = pieces;
                pieces = pieces.push(s@.subrange(start as int, i as int));
                assert(split_on(s@, sep) =~= pieces + split_on(s@.skip(i + 1), sep));
                assert forall|k: int| 0 <= k < out@.len() implies #[trigger] out@[k]@ == pieces[k] by {
                    if k < old_pieces.len() {
                        assert(pieces[k] == old_pieces[k]);
                    }
                }
            }
            start = i + 1;
        }
        i += 1;
    }
    proof {
        lemma_split_tail(s@, sep, start as int);
    }
    let last = sub_chars(s, start, s.len());
    out.push(last);
    proof {
        assert(last@ =~= s@.skip(start as int));
        pieces = pieces.push(last@);
        assert(split_on(s@, sep) =~= pieces);
    }
    out
}

/// number of "\r\n" pairs in `s`
pub open spec fn crlf_count(s: Seq<char>) -> int
    decreases s.len(),
{
    if s.len() < 2 {
        0
    } else if s[0] == '\r' && s[1] == '\n' {
        1 + crlf_count(s.skip(2))
    } else {
        crlf_count(s.drop_first())
    }
}

/// number of "\r\n" pairs in `s`
pub fn count_crlf(s: &[char]) -> (r: usize)
    ensures
        r == crlf_count(s@),
{
    let mut i: usize = 0;
    let mut n: usize = 0;
    proof {
        assert(s@.skip(0) =~= s@);
    }
    while i < s.len() && s.len() - i >= 2
        invariant
            i <= s@.len(),
            n <= i,
            n + crlf_count(s@.skip(i as int)) == crlf_count(s@),
        decreases s@.len() - i,
    {
        if s[i] == '\r' && s[i + 1] == '\n' {
            assert(s@.skip(i as int).skip(2) =~= s@.skip(i + 2));
            n += 1;
            i += 2;
        } else {
            assert(s@.skip(i as int).drop_first() =~= s@.skip(i + 1));
            i += 1;
        }
    }
    n
}

// ---------------------------------------------------------------------------
// Small unsigned integers (as `str::parse::<u8>`).
// ---------------------------------------------------------------------------

/// why text is not a `u8`
#[derive(Debug, Clone, Copy, PartialEq, Eq, Structural)]
pub enum IntErrorKind {
    /// no text
    Empty,
    /// a char that is not a decimal digit
    InvalidDigit,
    /// the value is above 255
    PosOverflow,
}

/// the value of a decimal digit
pub open spec fn digit_value(c: char) -> int {
    (c as u32) - ('0' as u32)
}

/// a decimal digit
pub open spec fn is_digit(c: char) -> bool {
    '0' <= c <= '9'
}

/// the digits of `s` read after `acc`, stopping at the first bad char or
/// at a value above 255
pub open spec fn digits_value(s: Seq<char>, acc: int) -> Result<int, IntErrorKind>
    decreases s.len(),
{
    if s.len() == 0 {
        Ok(acc)
    } else if !is_digit(s[0]) {
        Err(IntErrorKind::InvalidDigit)
    } else if acc * 10 + digit_value(s[0]) > 255 {
        Err(IntErrorKind::PosOverflow)
    } else {
        digits_value(s.drop_first(), acc * 10 + digit_value(s[0]))
    }
}

/// what `str::parse::<u8>` gives: an optional `+` sign, then decimal digits
pub open spec fn parse_u8_s(s: Seq<char>) -> Result<int, IntErrorKind> {
    if s.len() == 0 {
        Err(IntErrorKind::Empty)
    } else if (s[0] == '+' || s[0] == '-') && s.len() == 1 {
        Err(IntErrorKind::InvalidDigit)
    } else if s[0] == '+' {
        digits_value(s.drop_first(), 0)
    } else {
        digits_value(s, 0)
    }
}

/// parse a `u8` written in decimal, with an optional `+` sign
pub fn parse_u8(s: &[char]) -> (r: Result<u8, IntErrorKind>)
    ensures
        match r {
            Ok(v) => parse_u8_s(s@) == Ok::<int, IntErrorKind>(v as int),
            Err(k) => parse_u8_s(s@) == Err::<int, IntErrorKind>(k),
        },
{
    if s.len() == 0 {
        return Err(IntErrorKind::Empty);
    }
    if (s[0] == '+' || s[0] == '-') && s.len() == 1 {
        return Err(IntErrorKind::InvalidDigit);
    }
    let mut i: usize = if s[0] == '+' {
        1
    } else {
        0
    };
    let ghost d = s@.skip(i as int);
    proof {
        if s@[0] == '+' {
            assert(d =~= s@.drop_first());
        } else {
            assert(d =~= s@);
        }
    }
    let mut acc: u32 = 0;
    while i < s.len()
        invariant
            i <= s@.len(),
            acc <= 255,
            digits_value(s@.skip(i as int), acc as int) == digits_value(d, 0),
            parse_u8_s(s@) == digits_value(d, 0),
        decreases s@.len() - i,
    {
        let c = s[i];
        assert(s@.skip(i as int)[0] == c);
        if !('0' <= c && c <= '9') {
            return Err(IntErrorKind::InvalidDigit);
        }
        let v = acc * 10 + ((c as u32) - ('0' as u32));
        if v > 255 {
            return Err(IntErrorKind::PosOverflow);
        }
        assert(s@.skip(i as int).drop_first() =~= s@.skip(i + 1));
        acc = v;
        i += 1;
    }
    assert(s@.skip(i as int) =~= Seq::<char>::empty());
    Ok(acc as u8)
}

/// the message `ParseIntError` displays
pub open spec fn int_error_message(k: IntErrorKind) -> Seq<char> {
    match k {
        IntErrorKind::Empty => "cannot parse integer from empty string"@,
        IntErrorKind::InvalidDigit => "invalid digit found in string"@,
        IntErrorKind::PosOverflow => "number too large to fit in target type"@,
    }
}

impl IntErrorKind {
    /// the message `ParseIntError` displays for this kind
    pub fn message(&self) -> (r: String)
        ensures
            r@ == int_error_message(*self),
    {
        match self {
            IntErrorKind::Empty => String::from_str("cannot parse integer from empty string"),
            IntErrorKind::InvalidDigit => String::from_str("invalid digit found in string"),
            IntErrorKind::PosOverflow => String::from_str("number too large to fit in target type"),
        }
    }
}

/// the decimal digits of a number, without leading zeros
pub open spec fn decimal(n: int) -> Seq<char>
    decreases n,
{
    if n < 10 || n <= 0 {
        seq![(n + 48) as char]
    } else {
        decimal(n / 10).push((n % 10 + 48) as char)
    }
}

/// append the decimal digits of `n` to `s`
pub fn push_decimal(s: &mut String, n: u64)
    ensures
        final(s)@ == old(s)@ + decimal(n as int),
    decreases n,
{
    if n >= 10 {
        push_decimal(s, n / 10);
    }
    let d = (n % 10) as u8;
    string_push(s, (d + 48) as char);
    assert(s@ =~= old(s)@ + decimal(n as int));
}

/// the texts joined with `sep`
pub open spec fn join_with(texts: Seq<Seq<char>>, sep: Seq<char>) -> Seq<char>
    decreases texts.len(),
{
    if texts.len() == 0 {
        Seq::empty()
    } else if texts.len() == 1 {
        texts[0]
    } else {
        texts[0] + sep + join_with(texts.drop_first(), sep)
    }
}

/// the views of some strings
pub open spec fn views(v: Seq<String>) -> Seq<Seq<char>> {
    v.map_values(|s: String| s@)
}

/// the strings joined with `sep`
pub fn join_strings(parts: &Vec<String>, sep: &str) -> (r: String)
    ensures
        r@ == join_with(views(parts@), sep@),
{
    let ghost texts = views(parts@);
    let n = parts.len();
    if n == 0 {
        return String::new();
    }
    let mut i: usize = n - 1;
    let mut s = parts[i].clone();
    assert(texts.skip(i as int) =~= seq![texts[i as int]]);
    while i > 0
        invariant
            0 <= i < n == parts@.len(),
            texts == views(parts@),
            s@ == join_with(texts.skip(i as int), sep@),
        decreases i,
    {
        i -= 1;
        let mut t = parts[i].clone();
        t.append(sep);
        t.append(s.as_str());
        assert(texts.skip(i as int).drop_first() =~= texts.skip(i + 1));
        assert(texts.skip(i as int)[0] == texts[i as int]);
        s = t;
    }
    assert(texts.skip(0) =~= texts);
    s
}

// ---------------------------------------------------------------------------
// Facts used to read back text this crate writes.
// ---------------------------------------------------------------------------

/// no char of `s` is `c`
pub open spec fn lacks(s: Seq<char>, c: char) -> bool {
    forall|i: int| 0 <= i < s.len() ==> s[i] != c
}

/// Splitting text that lacks the separator gives the text back whole.
pub proof fn lemma_split_without_sep(s: Seq<char>, sep: char)
    requires
        lacks(s, sep),
    ensures
        split_on(s, sep) == seq![s],
{
    lemma_split_tail(s, sep, 0);
    assert(s.skip(0) =~= s);
}

/// Splitting at the first separator: the text before it, then the pieces
/// of the text after it.
pub proof fn lemma_split_first(x: Seq<char>, y: Seq<char>, sep: char)
    requires
        lacks(x, sep),
    ensures
        split_on(x + seq![sep] + y, sep) == seq![x] + split_on(y, sep),
{
    let s = x + seq![sep] + y;
    lemma_split_step(s, sep, 0, x.len() as int);
    assert(s.skip(0) =~= s);
    assert(s.subrange(0, x.len() as int) =~= x);
    assert(s.skip(x.len() as int + 1) =~= y);
}

/// No "\r\n" in text without '\r'.
pub proof fn lemma_crlf_none(s: Seq<char>)
    requires
        lacks(s, '\r'),
    ensures
        crlf_count(s) == 0,
    decreases s.len(),
{
    if s.len() >= 2 {
        assert(s.drop_first().len() < s.len());
        assert(lacks(s.drop_first(), '\r')) by {
            assert forall|i: int| 0 <= i < s.drop_first().len() implies s.drop_first()[i] != '\r' by {
                assert(s.drop_first()[i] == s[i + 1]);
            }
        }
        lemma_crlf_none(s.drop_first());
    }
}

/// ASCII text without uppercase letters is its own lowercase.
pub proof fn lemma_lower_identity(s: Seq<char>)
    requires
        forall|i: int| 0 <= i < s.len() ==> (s[i] as u32) < 128 && !('A' <= #[trigger] s[i] <= 'Z'),
    ensures
        lower_s(s) == s,
{
    assert(all_ascii(s));
    assert(s.map_values(|c: char| ascii_lower_char(c)) =~= s);
}

/// Trimming text that starts and ends with a char that is not whitespace
/// keeps it whole.
pub proof fn lemma_trim_identity(s: Seq<char>)
    requires
        s.len() > 0,
        !is_ws(s[0]),
        !is_ws(s.last()),
    ensures
        trim_s(s) == s,
        trim_start_s(s) == s,
{
}

/// A leading space goes with trimming.
pub proof fn lemma_trim_space(s: Seq<char>)
    ensures
        trim_start_s(seq![' '] + s) == trim_start_s(s),
{
    assert((seq![' '] + s).drop_first() =~= s);
}

/// Text that starts with `p` and goes on with something that does not start
/// with `p` again loses exactly that prefix.
pub proof fn lemma_strip_once(p: Seq<char>, rest: Seq<char>)
    requires
        p.len() > 0,
        !starts_with_s(rest, p),
    ensures
        strip_prefix_all(p + rest, p) == rest,
{
    reveal_with_fuel(strip_prefix_all, 2);
    assert((p + rest).take(p.len() as int) =~= p);
    assert((p + rest).skip(p.len() as int) =~= rest);
}

/// One leading copy of the char goes with trimming it.
pub proof fn lemma_trim_char_lead(s: Seq<char>, c: char)
    requires
        s.len() > 0,
        s[0] != c,
        s.last() != c,
    ensures
        trim_char_s(seq![c] + s, c) == s,
{
    reveal_with_fuel(trim_start_char, 2);
    assert((seq![c] + s).drop_first() =~= s);
    assert((seq![c] + s).last() == s.last());
    assert(trim_start_char(seq![c] + s, c) == s);
}

/// The digits of a number from 8 to 15 read back as that number.
pub proof fn lemma_small_decimal(n: int)
    requires
        8 <= n <= 15,
    ensures
        parse_u8_s(decimal(n)) == Ok::<int, IntErrorKind>(n),
        decimal(n).len() > 0,
        is_digit(decimal(n)[0]),
        is_digit(decimal(n).last()),
        forall|i: int| 0 <= i < decimal(n).len() ==> is_digit(#[trigger] decimal(n)[i]),
{
    reveal_with_fuel(decimal, 3);
    reveal_with_fuel(digits_value, 3);
    let d = decimal(n);
    if n < 10 {
        assert(d =~= seq![(n + 48) as char]);
        assert(d.drop_first() =~= Seq::<char>::empty());
    } else {
        assert(decimal(n / 10) =~= seq![(n / 10 + 48) as char]);
        assert(d =~= seq![(n / 10 + 48) as char, (n % 10 + 48) as char]);
        assert(d.drop_first() =~= seq![(n % 10 + 48) as char]);
        assert(d.drop_first().drop_first() =~= Seq::<char>::empty());
    }
}

} // verus!
