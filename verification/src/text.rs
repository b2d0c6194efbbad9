//! Text helpers: decimal rendering of integers, character-level views of
//! strings, and appending to a `String`.

use vstd::prelude::*;
use vstd::string::*;

verus! {

/// The ASCII digit character for `d` (which should be below ten).
pub open spec fn digit_char(d: nat) -> char {
    if d == 0 {
        '0'
    } else if d == 1 {
        '1'
    } else if d == 2 {
        '2'
    } else if d == 3 {
        '3'
    } else if d == 4 {
        '4'
    } else if d == 5 {
        '5'
    } else if d == 6 {
        '6'
    } else if d == 7 {
        '7'
    } else if d == 8 {
        '8'
    } else {
        '9'
    }
}

/// The decimal representation of `n`, most significant digit first, without
/// leading zeros (`0` is rendered as a single `'0'`).
pub open spec fn decimal(n: nat) -> Seq<char>
    decreases n,
{
    if n < 10 {
        seq![digit_char(n)]
    } else {
        decimal(n / 10).push(digit_char(n % 10))
    }
}

/// `decimal(n)`, preceded by as many `'0'` as needed to reach `width`
/// characters; a longer rendering is left as it is.
pub open spec fn zero_padded(n: nat, width: nat) -> Seq<char> {
    let d = decimal(n);
    if d.len() < width {
        Seq::new((width - d.len()) as nat, |i: int| '0') + d
    } else {
        d
    }
}

/// Appends one character to a string.
#[verifier::external_body]
pub fn push_char(s: &mut String, c: char)
    ensures
        final(s)@ == old(s)@.push(c),
{
    s.push(c);
}

fn digit(d: u64) -> (c: char)
    requires
        d < 10,
    ensures
        c == digit_char(d as nat),
{
    if d == 0 {
        '0'
    } else if d == 1 {
        '1'
    } else if d == 2 {
        '2'
    } else if d == 3 {
        '3'
    } else if d == 4 {
        '4'
    } else if d == 5 {
        '5'
    } else if d == 6 {
        '6'
    } else if d == 7 {
        '7'
    } else if d == 8 {
        '8'
    } else {
        '9'
    }
}

/// Appends the decimal rendering of `n` to `s`.
pub fn push_decimal(s: &mut String, n: u64)
    ensures
        final(s)@ == old(s)@ + decimal(n as nat),
    decreases n,
{
    if n < 10 {
        push_char(s, digit(n));
        assert(decimal(n as nat) =~= seq![digit_char(n as nat)]);
    } else {
        push_decimal(s, n / 10);
        push_char(s, digit(n % 10));
        assert(decimal(n as nat) =~= decimal((n / 10) as nat).push(digit_char((n % 10) as nat)));
    }
}

/// Every decimal rendering has at least one character.
pub proof fn lemma_decimal_nonempty(n: nat)
    ensures
        decimal(n).len() >= 1,
    decreases n,
{
    if n >= 10 {
        lemma_decimal_nonempty(n / 10);
    }
}

/// The rendering of a number of ten or more has at least two characters.
pub proof fn lemma_decimal_len_ge_two(n: nat)
    requires
        n >= 10,
    ensures
        decimal(n).len() >= 2,
{
    lemma_decimal_nonempty(n / 10);
}

/// Distinct numbers have distinct decimal renderings.
pub proof fn lemma_decimal_injective(a: nat, b: nat)
    requires
        decimal(a) == decimal(b),
    ensures
        a == b,
    decreases a,
{
    if a < 10 && b < 10 {
        assert(decimal(a)[0] == digit_char(a));
        assert(decimal(b)[0] == digit_char(b));
    } else if a < 10 {
        lemma_decimal_len_ge_two(b);
    } else if b < 10 {
        lemma_decimal_len_ge_two(a);
    } else {
        let da = decimal(a / 10);
        let db = decimal(b / 10);
        assert(decimal(a) == da.push(digit_char(a % 10)));
        assert(decimal(b) == db.push(digit_char(b % 10)));
        assert(da =~= decimal(a).drop_last());
        assert(db =~= decimal(b).drop_last());
        lemma_decimal_injective(a / 10, b / 10);
        assert(decimal(a).last() == digit_char(a % 10));
        assert(decimal(b).last() == digit_char(b % 10));
    }
}

/// Two sequences that share a prefix are equal exactly when their tails are.
pub proof fn lemma_prefix_cancel(p: Seq<char>, a: Seq<char>, b: Seq<char>)
    requires
        p + a == p + b,
    ensures
        a == b,
{
    assert(a =~= (p + a).subrange(p.len() as int, (p + a).len() as int));
    assert(b =~= (p + b).subrange(p.len() as int, (p + b).len() as int));
}

/// The characters of `s`, one per element.
pub fn chars_of(s: &str) -> (v: Vec<char>)
    ensures
        v@ == s@,
{
    let n = s.unicode_len();
    let mut v: Vec<char> = Vec::new();
    let mut i: usize = 0;
    while i < n
        invariant
            n == s@.len(),
            i <= n,
            v@ == s@.take(i as int),
        decreases n - i,
    {
        v.push(s.get_char(i));
        proof {
            assert(v@ =~= s@.take(i + 1));
        }
        i = i + 1;
    }
    proof {
        assert(s@.take(n as int) =~= s@);
    }
    v
}

/// Whether `needle` occurs as a contiguous run of characters in `hay`
/// (the empty sequence occurs in every sequence).
pub open spec fn contains_seq(hay: Seq<char>, needle: Seq<char>) -> bool {
    exists|i: int|
        0 <= i && i + needle.len() <= hay.len() && #[trigger] hay.subrange(i, i + needle.len())
            == needle
}

/// Whether `needle` occurs in `hay` starting at position `at`.
fn occurs_at(hay: &Vec<char>, needle: &Vec<char>, at: usize) -> (r: bool)
    requires
        at + needle@.len() <= hay@.len(),
    ensures
        r == (hay@.subrange(at as int, at + needle@.len()) == needle@),
{
    let hl = hay.len();
    let mut j: usize = 0;
    while j < needle.len()
        invariant
            at + needle@.len() <= hay@.len(),
            hl == hay@.len(),
            j <= needle@.len(),
            forall|k: int| 0 <= k < j ==> hay@[at + k] == needle@[k],
        decreases needle@.len() - j,
    {
        if hay[at + j] != needle[j] {
            proof {
                let sub = hay@.subrange(at as int, at + needle@.len());
                assert(sub[j as int] != needle@[j as int]);
            }
            return false;
        }
        j = j + 1;
    }
    proof {
        assert(hay@.subrange(at as int, at + needle@.len()) =~= needle@);
    }
    true
}

/// Whether `needle` occurs as a contiguous run of characters in `hay`.
pub fn contains_chars(hay: &Vec<char>, needle: &Vec<char>) -> (r: bool)
    ensures
        r == contains_seq(hay@, needle@),
{
    if needle.len() == 0 {
        proof {
            assert(hay@.subrange(0, 0int + needle@.len()) =~= needle@);
        }
        return true;
    }
    if needle.len() > hay.len() {
        return false;
    }
    let starts = hay.len() - needle.len() + 1;
    let mut i: usize = 0;
    while i < starts
        invariant
            starts == hay@.len() - needle@.len() + 1,
            needle@.len() <= hay@.len(),
            forall|k: int| 0 <= k < i ==> #[trigger] hay@.subrange(k, k + needle@.len()) != needle@,
        decreases starts - i,
    {
        if occurs_at(hay, needle, i) {
            return true;
        }
        i = i + 1;
    }
    false
}

/// Whether `needle` occurs in `hay`.
pub fn str_contains(hay: &str, needle: &str) -> (r: bool)
    ensures
        r == contains_seq(hay@, needle@),
{
    let h = chars_of(hay);
    let n = chars_of(needle);
    contains_chars(&h, &n)
}

/// Why a string is not a decimal index (the kinds of error that reading an
/// unsigned integer can report).
#[derive(Debug, Clone, Copy, PartialEq, Eq, Structural)]
pub enum ParseIndexError {
    Empty,
    InvalidDigit,
    PosOverflow,
}

impl ParseIndexError {
    /// The human-readable description of the error.
    pub fn message(&self) -> (m: String)
        ensures
            *self == ParseIndexError::Empty ==> m@ == "cannot parse integer from empty string"@,
            *self == ParseIndexError::InvalidDigit ==> m@ == "invalid digit found in string"@,
            *self == ParseIndexError::PosOverflow ==> m@
                == "number too large to fit in target type"@,
    {
        match self {
            ParseIndexError::Empty => String::from_str("cannot parse integer from empty string"),
            ParseIndexError::InvalidDigit => String::from_str("invalid digit found in string"),
            ParseIndexError::PosOverflow => String::from_str(
                "number too large to fit in target type",
            ),
        }
    }
}

/// Whether `c` is one of `0` to `9`.
pub open spec fn is_ascii_digit(c: char) -> bool {
    '0' <= c && c <= '9'
}

/// The value of the digit `c`.
pub open spec fn digit_value(c: char) -> nat {
    (c as int - '0' as int) as nat
}

/// Reads the digits `d` after the value `acc` already read, left to right:
/// the first character that is not a digit, or the first digit that takes
/// the value past `usize::MAX`, decides the error.
pub open spec fn scan_digits(d: Seq<char>, acc: nat) -> Result<usize, ParseIndexError>
    decreases d.len(),
{
    if d.len() == 0 {
        Ok(acc as usize)
    } else if !is_ascii_digit(d[0]) {
        Err(ParseIndexError::InvalidDigit)
    } else if acc * 10 + digit_value(d[0]) > usize::MAX {
        Err(ParseIndexError::PosOverflow)
    } else {
        scan_digits(d.drop_first(), acc * 10 + digit_value(d[0]))
    }
}

/// The result of reading `s` as an unsigned decimal integer: an optional
/// leading `+`, then at least one digit, the value fitting in a `usize`.
pub open spec fn parse_index(s: Seq<char>) -> Result<usize, ParseIndexError> {
    if s.len() == 0 {
        Err(ParseIndexError::Empty)
    } else if s.len() == 1 && (s[0] == '+' || s[0] == '-') {
        Err(ParseIndexError::InvalidDigit)
    } else if s[0] == '+' {
        scan_digits(s.drop_first(), 0)
    } else {
        scan_digits(s, 0)
    }
}

/// Reads `s[start..]` as digits, as `scan_digits` does from zero.
fn scan_from(s: &Vec<char>, start: usize) -> (r: Result<usize, ParseIndexError>)
    requires
        start <= s@.len(),
    ensures
        r == scan_digits(s@.subrange(start as int, s@.len() as int), 0),
{
    let mut acc: usize = 0;
    let mut i: usize = start;
    while i < s.len()
        invariant
            start <= i <= s@.len(),
            scan_digits(s@.subrange(start as int, s@.len() as int), 0) == scan_digits(
                s@.subrange(i as int, s@.len() as int),
                acc as nat,
            ),
        decreases s@.len() - i,
    {
        let c = s[i];
        let ghost rest = s@.subrange(i as int, s@.len() as int);
        proof {
            assert(rest[0] == c);
            assert(rest.drop_first() =~= s@.subrange(i + 1, s@.len() as int));
        }
        if !(c >= '0' && c <= '9') {
            return Err(ParseIndexError::InvalidDigit);
        }
        let d = (c as u32 - '0' as u32) as usize;
        assert(d == digit_value(c));
        match acc.checked_mul(10) {
            None => {
                return Err(ParseIndexError::PosOverflow);
            },
            Some(m) => match m.checked_add(d) {
                None => {
                    return Err(ParseIndexError::PosOverflow);
                },
                Some(v) => {
                    acc = v;
                },
            },
        }
        i = i + 1;
    }
    proof {
        assert(s@.subrange(i as int, s@.len() as int).len() == 0);
    }
    Ok(acc)
}

/// Reads `s` as an unsigned decimal integer.
pub fn parse_index_chars(s: &Vec<char>) -> (r: Result<usize, ParseIndexError>)
    ensures
        r == parse_index(s@),
{
    if s.len() == 0 {
        return Err(ParseIndexError::Empty);
    }
    if s.len() == 1 && (s[0] == '+' || s[0] == '-') {
        return Err(ParseIndexError::InvalidDigit);
    }
    if s[0] == '+' {
        proof {
            assert(s@.drop_first() =~= s@.subrange(1, s@.len() as int));
        }
        scan_from(s, 1)
    } else {
        proof {
            assert(s@ =~= s@.subrange(0, s@.len() as int));
        }
        scan_from(s, 0)
    }
}

/// Whether `s` begins with `prefix`.
pub open spec fn starts_with(s: Seq<char>, prefix: Seq<char>) -> bool {
    prefix.len() <= s.len() && s.subrange(0, prefix.len() as int) == prefix
}

/// The characters of `s` after `prefix`, when `s` begins with it.
pub fn strip_prefix_chars(s: &Vec<char>, prefix: &str) -> (r: Option<Vec<char>>)
    ensures
        r is Some <==> starts_with(s@, prefix@),
        r matches Some(rest) ==> rest@ == s@.subrange(prefix@.len() as int, s@.len() as int),
{
    let p = chars_of(prefix);
    if p.len() > s.len() {
        return None;
    }
    let mut i: usize = 0;
    while i < p.len()
        invariant
            p@ == prefix@,
            p@.len() <= s@.len(),
            i <= p@.len(),
            forall|k: int| 0 <= k < i ==> s@[k] == p@[k],
        decreases p@.len() - i,
    {
        if s[i] != p[i] {
            proof {
                assert(s@.subrange(0, p@.len() as int)[i as int] != p@[i as int]);
            }
            return None;
        }
        i = i + 1;
    }
    proof {
        assert(s@.subrange(0, p@.len() as int) =~= p@);
    }
    let mut rest: Vec<char> = Vec::new();
    let mut j: usize = p.len();
    while j < s.len()
        invariant
            p@.len() <= j <= s@.len(),
            rest@ == s@.subrange(p@.len() as int, j as int),
        decreases s@.len() - j,
    {
        rest.push(s[j]);
        proof {
            assert(rest@ =~= s@.subrange(p@.len() as int, j + 1));
        }
        j = j + 1;
    }
    Some(rest)
}

/// Whether `c` is alphanumeric in the sense of Unicode (alphabetic or
/// numeric), as the standard library decides it.
pub uninterp spec fn unicode_alphanumeric(c: char) -> bool;

/// Whether `c` is one of `0`-`9`, `a`-`z`, `A`-`Z`.
pub open spec fn ascii_alphanumeric(c: char) -> bool {
    ('0' <= c && c <= '9') || ('a' <= c && c <= 'z') || ('A' <= c && c <= 'Z')
}

/// Whether `c` is alphanumeric: for ASCII characters exactly the digits and
/// Latin letters, for others as Unicode decides.
pub open spec fn alphanumeric(c: char) -> bool {
    if (c as u32) < 128 {
        ascii_alphanumeric(c)
    } else {
        unicode_alphanumeric(c)
    }
}

/// `char::is_alphanumeric`: whether the character has the Unicode property
/// Alphabetic or a numeric general category. The result is named by
/// `unicode_alphanumeric`; for an ASCII character, as the standard library
/// documents it, that is exactly the ASCII digits and letters.
#[verifier::external_body]
fn char_is_alphanumeric(c: char) -> (r: bool)
    ensures
        r == unicode_alphanumeric(c),
        (c as u32) < 128 ==> r == ascii_alphanumeric(c),
{
    c.is_alphanumeric()
}

/// Whether `c` is alphanumeric (see `alphanumeric`).
pub fn is_alphanumeric(c: char) -> (r: bool)
    ensures
        r == alphanumeric(c),
{
    char_is_alphanumeric(c)
}

/// The string made of the characters `v`.
pub fn string_of_chars(v: &Vec<char>) -> (s: String)
    ensures
        s@ == v@,
{
    let mut s = String::new();
    let mut i: usize = 0;
    while i < v.len()
        invariant
            i <= v@.len(),
            s@ == v@.take(i as int),
        decreases v@.len() - i,
    {
        push_char(&mut s, v[i]);
        proof {
            assert(s@ =~= v@.take(i + 1));
        }
        i = i + 1;
    }
    proof {
        assert(v@.take(i as int) =~= v@);
    }
    s
}

/// Whether `s` ends with `suffix`.
pub open spec fn ends_with(s: Seq<char>, suffix: Seq<char>) -> bool {
    suffix.len() <= s.len() && s.subrange(s.len() - suffix.len(), s.len() as int) == suffix
}

/// Whether `s` ends with `suffix`.
pub fn ends_with_chars(s: &Vec<char>, suffix: &Vec<char>) -> (r: bool)
    ensures
        r == ends_with(s@, suffix@),
{
    if suffix.len() > s.len() {
        return false;
    }
    let sl = s.len();
    let off = sl - suffix.len();
    let mut i: usize = 0;
    while i < suffix.len()
        invariant
            sl == s@.len(),
            off == s@.len() - suffix@.len(),
            suffix@.len() <= s@.len(),
            i <= suffix@.len(),
            forall|k: int| 0 <= k < i ==> s@[off + k] == suffix@[k],
        decreases suffix@.len() - i,
    {
        if s[off + i] != suffix[i] {
            proof {
                assert(s@.subrange(off as int, s@.len() as int)[i as int] != suffix@[i as int]);
            }
            return false;
        }
        i = i + 1;
    }
    proof {
        assert(s@.subrange(off as int, s@.len() as int) =~= suffix@);
    }
    true
}

/// Lexicographic order on character sequences, comparing code points; a
/// proper prefix comes first.
pub open spec fn lex_le(a: Seq<char>, b: Seq<char>) -> bool
    decreases a.len(),
{
    if a.len() == 0 {
        true
    } else if b.len() == 0 {
        false
    } else if a[0] != b[0] {
        a[0] < b[0]
    } else {
        lex_le(a.drop_first(), b.drop_first())
    }
}

/// Any two sequences are ordered one way or the other.
pub proof fn lemma_lex_total(a: Seq<char>, b: Seq<char>)
    ensures
        lex_le(a, b) || lex_le(b, a),
    decreases a.len(),
{
    if a.len() > 0 && b.len() > 0 && a[0] == b[0] {
        lemma_lex_total(a.drop_first(), b.drop_first());
    }
}

/// The order is transitive.
pub proof fn lemma_lex_transitive(a: Seq<char>, b: Seq<char>, c: Seq<char>)
    requires
        lex_le(a, b),
        lex_le(b, c),
    ensures
        lex_le(a, c),
    decreases a.len(),
{
    if a.len() > 0 && b.len() > 0 && c.len() > 0 && a[0] == b[0] && b[0] == c[0] {
        lemma_lex_transitive(a.drop_first(), b.drop_first(), c.drop_first());
    }
}

/// The order is antisymmetric.
pub proof fn lemma_lex_antisymmetric(a: Seq<char>, b: Seq<char>)
    requires
        lex_le(a, b),
        lex_le(b, a),
    ensures
        a == b,
    decreases a.len(),
{
    if a.len() > 0 && b.len() > 0 {
        lemma_lex_antisymmetric(a.drop_first(), b.drop_first());
        assert(a =~= seq![a[0]] + a.drop_first());
        assert(b =~= seq![b[0]] + b.drop_first());
    }
}

/// Whether `a` comes before or equals `b` in lexicographic order.
pub fn lex_le_chars(a: &Vec<char>, b: &Vec<char>) -> (r: bool)
    ensures
        r == lex_le(a@, b@),
{
    let mut i: usize = 0;
    proof {
        assert(a@.skip(0) =~= a@);
        assert(b@.skip(0) =~= b@);
    }
    while i < a.len() && i < b.len()
        invariant
            i <= a@.len(),
            i <= b@.len(),
            lex_le(a@, b@) == lex_le(a@.skip(i as int), b@.skip(i as int)),
        decreases a@.len() - i,
    {
        proof {
            assert(a@.skip(i as int)[0] == a@[i as int]);
            assert(b@.skip(i as int)[0] == b@[i as int]);
            assert(a@.skip(i as int).drop_first() =~= a@.skip(i + 1));
            assert(b@.skip(i as int).drop_first() =~= b@.skip(i + 1));
        }
        if a[i] != b[i] {
            return a[i] < b[i];
        }
        i = i + 1;
    }
    proof {
        if i == a@.len() {
            assert(a@.skip(i as int).len() == 0);
        } else {
            assert(b@.skip(i as int).len() == 0);
        }
    }
    i == a.len()
}

/// The views of a sequence of strings.
pub open spec fn views(s: Seq<String>) -> Seq<Seq<char>> {
    s.map_values(|x: String| x@)
}

/// Whether `s` is in lexicographic order.
pub open spec fn sorted_lex(s: Seq<Seq<char>>) -> bool {
    forall|i: int, j: int| 0 <= i < j < s.len() ==> lex_le(#[trigger] s[i], #[trigger] s[j])
}

/// The strings `v` in lexicographic order.
pub fn sort_strings(v: Vec<String>) -> (r: Vec<String>)
    ensures
        sorted_lex(views(r@)),
        views(r@).to_multiset() == views(v@).to_multiset(),
{
    let mut out: Vec<String> = Vec::new();
    let mut i: usize = 0;
    proof {
        assert(views(out@) =~= views(v@.take(0)));
    }
    while i < v.len()
        invariant
            i <= v@.len(),
            sorted_lex(views(out@)),
            views(out@).to_multiset() == views(v@.take(i as int)).to_multiset(),
        decreases v@.len() - i,
    {
        let x = v[i].clone();
        let xc = chars_of(x.as_str());
        let mut pos: usize = 0;
        while pos < out.len()
            invariant
                xc@ == x@,
                pos <= out@.len(),
                forall|k: int| 0 <= k < pos ==> lex_le(#[trigger] views(out@)[k], x@),
            ensures
                pos <= out@.len(),
                forall|k: int| 0 <= k < pos ==> lex_le(#[trigger] views(out@)[k], x@),
                pos < out@.len() ==> !lex_le(views(out@)[pos as int], x@),
            decreases out@.len() - pos,
        {
            let oc = chars_of(out[pos].as_str());
            if !lex_le_chars(&oc, &xc) {
                break;
            }
            pos = pos + 1;
        }
        let ghost old_out = out@;
        proof {
            if pos < old_out.len() {
                let oc = old_out[pos as int]@;
                assert(views(old_out)[pos as int] == oc);
            }
        }
        out.insert(pos, x);
        proof {
            let w = views(old_out);
            assert(views(out@) =~= w.insert(pos as int, x@));
            if pos < old_out.len() {
                assert(lex_le(x@, w[pos as int])) by {
                    lemma_lex_total(w[pos as int], x@);
                }
            }
            assert forall|a: int, b: int|
                0 <= a < b < views(out@).len() implies lex_le(
                #[trigger] views(out@)[a],
                #[trigger] views(out@)[b],
            ) by {
                let nv = views(out@);
                if b < pos {
                    assert(nv[a] == w[a] && nv[b] == w[b]);
                } else if b == pos {
                    assert(nv[a] == w[a]);
                } else if a > pos {
                    assert(nv[a] == w[a - 1] && nv[b] == w[b - 1]);
                } else if a == pos {
                    assert(nv[b] == w[b - 1]);
                    lemma_lex_total(w[pos as int], x@);
                    if pos as int != b - 1 {
                        lemma_lex_transitive(x@, w[pos as int], w[b - 1]);
                    }
                } else {
                    assert(nv[a] == w[a] && nv[b] == w[b - 1]);
                    lemma_lex_total(w[pos as int], x@);
                    lemma_lex_transitive(w[a], x@, w[pos as int]);
                    if pos as int != b - 1 {
                        lemma_lex_transitive(w[a], w[pos as int], w[b - 1]);
                    }
                }
            }
            vstd::seq_lib::to_multiset_insert(w, pos as int, x@);
            assert(v@.take(i + 1) =~= v@.take(i as int).push(v@[i as int]));
            assert(views(v@.take(i + 1)) =~= views(v@.take(i as int)).push(x@));
            vstd::seq_lib::to_multiset_build(views(v@.take(i as int)), x@);
        }
        i = i + 1;
    }
    proof {
        assert(v@.take(i as int) =~= v@);
    }
    out
}

/// The number of characters in the decimal rendering of `n`.
pub fn decimal_len(n: u64) -> (r: usize)
    ensures
        r == decimal(n as nat).len(),
{
    let mut tmp = String::new();
    push_decimal(&mut tmp, n);
    proof {
        assert(tmp@ =~= decimal(n as nat));
    }
    tmp.as_str().unicode_len()
}

/// Appends `decimal(n)` to `s`, preceded by as many `0` as needed to reach
/// `width` characters.
pub fn push_zero_padded(s: &mut String, n: u64, width: usize)
    ensures
        final(s)@ == old(s)@ + zero_padded(n as nat, width as nat),
{
    let len = decimal_len(n);
    let ghost start = s@;
    if len < width {
        let mut k: usize = 0;
        while k < width - len
            invariant
                len < width,
                k <= width - len,
                s@ == start + Seq::new(k as nat, |i: int| '0'),
            decreases width - len - k,
        {
            push_char(s, '0');
            proof {
                assert(s@ =~= start + Seq::new((k + 1) as nat, |i: int| '0'));
            }
            k = k + 1;
        }
    }
    let ghost mid = s@;
    push_decimal(s, n);
    proof {
        if len < width {
            assert(s@ =~= start + (Seq::new((width - len) as nat, |i: int| '0') + decimal(
                n as nat,
            )));
        } else {
            assert(mid == start);
        }
    }
}

/// Reading one more digit after `s` extends the value read from `s`.
proof fn lemma_scan_push(s: Seq<char>, c: char, acc: nat)
    requires
        is_ascii_digit(c),
        acc <= usize::MAX,
    ensures
        scan_digits(s.push(c), acc) == match scan_digits(s, acc) {
            Ok(v) => if v * 10 + digit_value(c) > usize::MAX {
                Err(ParseIndexError::PosOverflow)
            } else {
                Ok((v * 10 + digit_value(c)) as usize)
            },
            Err(e) => Err(e),
        },
    decreases s.len(),
{
    if s.len() == 0 {
        assert(s.push(c) =~= seq![c]);
        assert(seq![c].drop_first() =~= Seq::<char>::empty());
        assert(scan_digits(s, acc) == Ok::<usize, ParseIndexError>(acc as usize));
        if acc * 10 + digit_value(c) <= usize::MAX {
            assert(scan_digits(Seq::<char>::empty(), acc * 10 + digit_value(c)) == Ok::<
                usize,
                ParseIndexError,
            >((acc * 10 + digit_value(c)) as usize));
        }
    } else {
        assert(s.push(c)[0] == s[0]);
        assert(s.push(c).drop_first() =~= s.drop_first().push(c));
        if is_ascii_digit(s[0]) && acc * 10 + digit_value(s[0]) <= usize::MAX {
            lemma_scan_push(s.drop_first(), c, acc * 10 + digit_value(s[0]));
        }
    }
}

proof fn lemma_digit_char(d: nat)
    requires
        d < 10,
    ensures
        is_ascii_digit(digit_char(d)),
        digit_value(digit_char(d)) == d,
        digit_char(d) != '+',
        digit_char(d) != '-',
{
}

/// Reading the digits of `n` gives back `n`.
pub proof fn lemma_scan_decimal(n: nat)
    requires
        n <= usize::MAX,
    ensures
        scan_digits(decimal(n), 0) == Ok::<usize, ParseIndexError>(n as usize),
    decreases n,
{
    if n < 10 {
        lemma_digit_char(n);
        lemma_scan_push(Seq::<char>::empty(), digit_char(n), 0);
        assert(Seq::<char>::empty().push(digit_char(n)) =~= decimal(n));
    } else {
        lemma_scan_decimal(n / 10);
        lemma_digit_char(n % 10);
        lemma_scan_push(decimal(n / 10), digit_char(n % 10), 0);
    }
}

/// The decimal rendering of an index reads back as that index.
pub proof fn lemma_parse_decimal(n: nat)
    requires
        n <= usize::MAX,
    ensures
        parse_index(decimal(n)) == Ok::<usize, ParseIndexError>(n as usize),
{
    lemma_scan_decimal(n);
    lemma_decimal_nonempty(n);
    lemma_decimal_first_digit(n);
}

proof fn lemma_decimal_first_digit(n: nat)
    ensures
        decimal(n).len() >= 1,
        is_ascii_digit(decimal(n)[0]),
    decreases n,
{
    lemma_decimal_nonempty(n);
    if n < 10 {
        lemma_digit_char(n);
    } else {
        lemma_decimal_first_digit(n / 10);
    }
}

/// The identifier `<prefix><n>` begins with `prefix`, and what follows reads
/// back as `n`.
pub proof fn lemma_labelled_index(prefix: Seq<char>, n: nat)
    requires
        n <= usize::MAX,
    ensures
        starts_with(prefix + decimal(n), prefix),
        parse_index((prefix + decimal(n)).subrange(prefix.len() as int, (prefix + decimal(n)).len() as int))
            == Ok::<usize, ParseIndexError>(n as usize),
{
    let id = prefix + decimal(n);
    assert(id.subrange(0, prefix.len() as int) =~= prefix);
    assert(id.subrange(prefix.len() as int, id.len() as int) =~= decimal(n));
    lemma_parse_decimal(n);
}

/// Whether `a` and `b` agree on their first `k` characters and differ at
/// position `k`, where `a` has the smaller code point.
pub open spec fn first_difference_below(a: Seq<char>, b: Seq<char>, k: int) -> bool {
    &&& 0 <= k < a.len()
    &&& k < b.len()
    &&& a.subrange(0, k) == b.subrange(0, k)
    &&& a[k] < b[k]
}

/// A sequence comes before any longer sequence that extends it, and never
/// after it: a proper prefix sorts first.
pub proof fn lemma_lex_prefix_first(p: Seq<char>, q: Seq<char>)
    requires
        q.len() > 0,
    ensures
        lex_le(p, p + q),
        !lex_le(p + q, p),
    decreases p.len(),
{
    if p.len() > 0 {
        assert((p + q)[0] == p[0]);
        assert((p + q).drop_first() =~= p.drop_first() + q);
        lemma_lex_prefix_first(p.drop_first(), q);
    } else {
        assert(p + q =~= q);
    }
}

/// The order used to sort is the standard lexicographic order of code
/// points: `a` comes before or equals `b` exactly when `a` is a prefix of
/// `b`, or at the first position where they differ `a` has the smaller code
/// point.
pub proof fn lemma_lex_le_characterized(a: Seq<char>, b: Seq<char>)
    ensures
        lex_le(a, b) <==> (a.len() <= b.len() && b.subrange(0, a.len() as int) == a) || exists|
            k: int,
        | #[trigger] first_difference_below(a, b, k),
    decreases a.len(),
{
    if a.len() == 0 {
        assert(b.subrange(0, 0) =~= a);
    } else if b.len() == 0 {
    } else if a[0] != b[0] {
        if a.len() <= b.len() && b.subrange(0, a.len() as int) == a {
            assert(b.subrange(0, a.len() as int)[0] == b[0]);
        }
        if exists|k: int| #[trigger] first_difference_below(a, b, k) {
            let k = choose|k: int| #[trigger] first_difference_below(a, b, k);
            if k > 0 {
                assert(a.subrange(0, k)[0] == b.subrange(0, k)[0]);
            }
        }
        if a[0] < b[0] {
            assert(a.subrange(0, 0) =~= b.subrange(0, 0));
            assert(first_difference_below(a, b, 0));
        }
    } else {
        let a2 = a.drop_first();
        let b2 = b.drop_first();
        lemma_lex_le_characterized(a2, b2);
        if a.len() <= b.len() {
            assert(b.subrange(0, a.len() as int) == a <==> b2.subrange(0, a2.len() as int) == a2) by {
                if b.subrange(0, a.len() as int) == a {
                    assert(b2.subrange(0, a2.len() as int) =~= a.drop_first());
                }
                if b2.subrange(0, a2.len() as int) == a2 {
                    assert forall|i: int| 0 <= i < a.len() implies b.subrange(
                        0,
                        a.len() as int,
                    )[i] == a[i] by {
                        if i > 0 {
                            assert(b2.subrange(0, a2.len() as int)[i - 1] == a2[i - 1]);
                        }
                    }
                    assert(b.subrange(0, a.len() as int) =~= a);
                }
            }
        }
        if exists|k: int| #[trigger] first_difference_below(a, b, k) {
            let k = choose|k: int| #[trigger] first_difference_below(a, b, k);
            assert(k > 0);
            assert(a2.subrange(0, k - 1) =~= a.subrange(0, k).drop_first());
            assert(b2.subrange(0, k - 1) =~= b.subrange(0, k).drop_first());
            assert(first_difference_below(a2, b2, k - 1));
        }
        if exists|k: int| #[trigger] first_difference_below(a2, b2, k) {
            let k = choose|k: int| #[trigger] first_difference_below(a2, b2, k);
            assert(a.subrange(0, k + 1) =~= seq![a[0]] + a2.subrange(0, k));
            assert(b.subrange(0, k + 1) =~= seq![b[0]] + b2.subrange(0, k));
            assert(first_difference_below(a, b, k + 1));
        }
    }
}

} // verus!
