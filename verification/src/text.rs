//! Character-level string operations with their specifications: trimming,
//! ASCII case folding, prefixes, splitting and decimal rendering.
use vstd::prelude::*;

verus! {

// ---------- conversions between `str` and character vectors ----------

/// The characters of `s`, in order (`str::chars` collected into a vector).
#[verifier::external_body]
pub fn chars_of(s: &str) -> (v: Vec<char>)
    ensures
        v@ == s@,
{
    s.chars().collect()
}

/// A `String` holding exactly the characters of `v` (`String: FromIterator<char>`).
#[verifier::external_body]
pub fn string_of(v: &[char]) -> (s: String)
    ensures
        s@ == v@,
{
    v.iter().collect()
}

/// What `str::to_lowercase` returns for a string with the characters `s`.
pub uninterp spec fn lowercase(s: Seq<char>) -> Seq<char>;

/// `s` with every ASCII capital letter taken to its small letter.
pub open spec fn fold_ascii(s: Seq<char>) -> Seq<char> {
    s.map_values(|c: char| ascii_lower(c))
}

/// Every character of `s` is ASCII.
pub open spec fn all_ascii(s: Seq<char>) -> bool {
    forall|i: int| 0 <= i < s.len() ==> (#[trigger] s[i] as u32) < 128
}

/// `str::to_lowercase` of the string with the characters `s`. Its
/// documentation maps each character by the Unicode `Lowercase` mapping,
/// which takes the ASCII capitals to the small letters and leaves every
/// other ASCII character as it is, so an ASCII string only has its capitals
/// folded.
#[verifier::external_body]
pub fn lowercase_chars(s: &[char]) -> (r: Vec<char>)
    ensures
        r@ == lowercase(s@),
        all_ascii(s@) ==> r@ == fold_ascii(s@),
{
    let text: String = s.iter().collect();
    text.to_lowercase().chars().collect()
}

// ---------- character classes ----------

/// The Unicode `White_Space` property, which `char::is_whitespace` tests.
pub open spec fn is_whitespace(c: char) -> bool {
    let u = c as u32;
    ||| (0x9 <= u && u <= 0xd)
    ||| u == 0x20
    ||| u == 0x85
    ||| u == 0xa0
    ||| u == 0x1680
    ||| (0x2000 <= u && u <= 0x200a)
    ||| u == 0x2028
    ||| u == 0x2029
    ||| u == 0x202f
    ||| u == 0x205f
    ||| u == 0x3000
}

pub fn is_whitespace_char(c: char) -> (b: bool)
    ensures
        b == is_whitespace(c),
{
    let u = c as u32;
    (0x9 <= u && u <= 0xd) || u == 0x20 || u == 0x85 || u == 0xa0 || u == 0x1680 || (0x2000 <= u
        && u <= 0x200a) || u == 0x2028 || u == 0x2029 || u == 0x202f || u == 0x205f || u == 0x3000
}

/// ASCII lower-casing of one character; other characters are unchanged.
pub open spec fn ascii_lower(c: char) -> char {
    if 'A' <= c && c <= 'Z' {
        ((c as u32) + 32) as char
    } else {
        c
    }
}

pub fn ascii_lower_char(c: char) -> (r: char)
    ensures
        r == ascii_lower(c),
{
    if 'A' <= c && c <= 'Z' {
        (((c as u8) + 32) as char)
    } else {
        c
    }
}


/// The view of an optional string.
pub open spec fn opt_view(o: Option<String>) -> Option<Seq<char>> {
    match o {
        Some(s) => Some(s@),
        None => None,
    }
}

/// A copy of an optional string.
pub fn copy_opt_string(o: &Option<String>) -> (r: Option<String>)
    ensures
        r == *o,
{
    match o {
        Some(s) => Some(s.clone()),
        None => None,
    }
}

// ---------- numbers ----------

/// The decimal digit character for `d < 10`.
pub open spec fn digit_char(d: nat) -> char {
    ((('0' as u32) + d) as u32) as char
}

/// The decimal rendering of `n`, without leading zeros.
pub open spec fn decimal(n: nat) -> Seq<char>
    decreases n,
{
    if n < 10 {
        seq![digit_char(n)]
    } else {
        decimal(n / 10).push(digit_char(n % 10))
    }
}

pub fn digit(d: u64) -> (c: char)
    requires
        d < 10,
    ensures
        c == digit_char(d as nat),
{
    ((d as u8) + 48) as char
}

/// `n.to_string()`.
pub fn decimal_chars(n: u64) -> (r: Vec<char>)
    ensures
        r@ == decimal(n as nat),
    decreases n,
{
    if n < 10 {
        let r = vec![digit(n)];
        assert(r@ =~= decimal(n as nat));
        r
    } else {
        let mut r = decimal_chars(n / 10);
        r.push(digit(n % 10));
        r
    }
}

/// `n.to_string()` for a 128-bit `n`.
pub fn decimal_chars_wide(n: u128) -> (r: Vec<char>)
    ensures
        r@ == decimal(n as nat),
    decreases n,
{
    if n < 10 {
        let r = vec![digit(n as u64)];
        assert(r@ =~= decimal(n as nat));
        r
    } else {
        let mut r = decimal_chars_wide(n / 10);
        r.push(digit((n % 10) as u64));
        r
    }
}

/// `s` padded on the left with `0` to at least `width` characters.
pub open spec fn zero_pad(s: Seq<char>, width: nat) -> Seq<char> {
    if s.len() >= width {
        s
    } else {
        Seq::new((width - s.len()) as nat, |i: int| '0') + s
    }
}

pub fn zero_pad_chars(s: &[char], width: usize) -> (r: Vec<char>)
    ensures
        r@ == zero_pad(s@, width as nat),
{
    let mut r: Vec<char> = Vec::new();
    let mut k: usize = s.len();
    while k < width
        invariant
            s@.len() <= k <= width || (s@.len() > width && k == s@.len()),
            k >= s@.len(),
            r@ == Seq::new((k - s@.len()) as nat, |i: int| '0'),
        decreases width - k,
    {
        r.push('0');
        assert(r@ =~= Seq::new((k + 1 - s@.len()) as nat, |i: int| '0'));
        k = k + 1;
    }
    let mut i: usize = 0;
    let ghost pad = r@;
    while i < s.len()
        invariant
            i <= s@.len(),
            r@ == pad + s@.take(i as int),
        decreases s.len() - i,
    {
        r.push(s[i]);
        assert(r@ =~= pad + s@.take(i + 1));
        i = i + 1;
    }
    assert(s@.take(s@.len() as int) =~= s@);
    assert(r@ =~= zero_pad(s@, width as nat));
    r
}

/// Append the characters of `t` to `v`.
pub fn push_all(v: &mut Vec<char>, t: &[char])
    ensures
        final(v)@ == old(v)@ + t@,
{
    let mut i: usize = 0;
    let ghost start = v@;
    while i < t.len()
        invariant
            i <= t@.len(),
            v@ == start + t@.take(i as int),
        decreases t.len() - i,
    {
        v.push(t[i]);
        assert(v@ =~= start + t@.take(i + 1));
        i = i + 1;
    }
    assert(t@.take(t@.len() as int) =~= t@);
}

/// Append the characters of `t` to `v`.
pub fn push_str(v: &mut Vec<char>, t: &str)
    ensures
        final(v)@ == old(v)@ + t@,
{
    let cs = chars_of(t);
    push_all(v, cs.as_slice());
}

// ---------- trimming ----------

/// What is stripped from the ends of a string: Unicode white space, or one
/// given character.
#[derive(Clone, Copy)]
pub enum Strip {
    Whitespace,
    Char(char),
}

pub open spec fn strips(m: Strip, c: char) -> bool {
    match m {
        Strip::Whitespace => is_whitespace(c),
        Strip::Char(x) => c == x,
    }
}

pub fn strips_char(m: Strip, c: char) -> (b: bool)
    ensures
        b == strips(m, c),
{
    match m {
        Strip::Whitespace => is_whitespace_char(c),
        Strip::Char(x) => c == x,
    }
}

/// `s` without its longest prefix of characters that `m` strips.
pub open spec fn strip_leading(s: Seq<char>, m: Strip) -> Seq<char>
    decreases s.len(),
{
    if s.len() > 0 && strips(m, s[0]) {
        strip_leading(s.drop_first(), m)
    } else {
        s
    }
}

/// `s` without its longest suffix of characters that `m` strips.
pub open spec fn strip_trailing(s: Seq<char>, m: Strip) -> Seq<char>
    decreases s.len(),
{
    if s.len() > 0 && strips(m, s.last()) {
        strip_trailing(s.drop_last(), m)
    } else {
        s
    }
}

/// `str::trim`: white space removed from both ends.
pub open spec fn trim(s: Seq<char>) -> Seq<char> {
    strip_trailing(strip_leading(s, Strip::Whitespace), Strip::Whitespace)
}

/// `str::trim_matches(c)`: every leading and trailing `c` removed.
pub open spec fn trim_char(s: Seq<char>, c: char) -> Seq<char> {
    strip_trailing(strip_leading(s, Strip::Char(c)), Strip::Char(c))
}

/// Index where the characters of `s[a..b]` that `m` strips at the front end.
pub fn skip_leading(s: &[char], a: usize, b: usize, m: Strip) -> (i: usize)
    requires
        a <= b <= s@.len(),
    ensures
        a <= i <= b,
        strip_leading(s@.subrange(a as int, b as int), m) == s@.subrange(i as int, b as int),
{
    let mut i = a;
    while i < b && strips_char(m, s[i])
        invariant
            a <= i <= b,
            b <= s@.len(),
            strip_leading(s@.subrange(a as int, b as int), m) == strip_leading(
                s@.subrange(i as int, b as int),
                m,
            ),
        decreases b - i,
    {
        assert(s@.subrange(i as int, b as int).drop_first() =~= s@.subrange(i + 1, b as int));
        i = i + 1;
    }
    i
}

/// Index where the characters of `s[a..b]` that `m` strips at the back begin.
pub fn skip_trailing(s: &[char], a: usize, b: usize, m: Strip) -> (j: usize)
    requires
        a <= b <= s@.len(),
    ensures
        a <= j <= b,
        strip_trailing(s@.subrange(a as int, b as int), m) == s@.subrange(a as int, j as int),
{
    let mut j = b;
    while j > a && strips_char(m, s[j - 1])
        invariant
            a <= j <= b,
            b <= s@.len(),
            strip_trailing(s@.subrange(a as int, b as int), m) == strip_trailing(
                s@.subrange(a as int, j as int),
                m,
            ),
        decreases j - a,
    {
        assert(s@.subrange(a as int, j as int).drop_last() =~= s@.subrange(a as int, j - 1));
        j = j - 1;
    }
    j
}

/// Bounds of `trim(s[a..b])` inside `s`.
pub fn trim_bounds(s: &[char], a: usize, b: usize) -> (r: (usize, usize))
    requires
        a <= b <= s@.len(),
    ensures
        a <= r.0 <= r.1 <= b,
        trim(s@.subrange(a as int, b as int)) == s@.subrange(r.0 as int, r.1 as int),
{
    let i = skip_leading(s, a, b, Strip::Whitespace);
    let j = skip_trailing(s, i, b, Strip::Whitespace);
    (i, j)
}

/// `trim` as a new vector.
pub fn trim_vec(s: &[char]) -> (r: Vec<char>)
    ensures
        r@ == trim(s@),
{
    let (i, j) = trim_bounds(s, 0, s.len());
    assert(s@.subrange(0, s@.len() as int) =~= s@);
    slice_range(s, i, j)
}

/// `s[i..j]` copied into a new vector.
pub fn slice_range(s: &[char], i: usize, j: usize) -> (r: Vec<char>)
    requires
        i <= j <= s@.len(),
    ensures
        r@ == s@.subrange(i as int, j as int),
{
    let mut r: Vec<char> = Vec::new();
    let mut k = i;
    while k < j
        invariant
            i <= k <= j <= s@.len(),
            r@ == s@.subrange(i as int, k as int),
        decreases j - k,
    {
        r.push(s[k]);
        assert(r@ =~= s@.subrange(i as int, k + 1));
        k = k + 1;
    }
    r
}

// ---------- comparisons ----------

/// `eq_ignore_ascii_case`: equal lengths and equal characters after ASCII
/// lower-casing.
pub open spec fn eq_ignore_ascii_case(a: Seq<char>, b: Seq<char>) -> bool {
    &&& a.len() == b.len()
    &&& forall|i: int| 0 <= i < a.len() ==> ascii_lower(#[trigger] a[i]) == ascii_lower(b[i])
}

pub fn eq_ignore_ascii_case_chars(a: &[char], b: &[char]) -> (r: bool)
    ensures
        r == eq_ignore_ascii_case(a@, b@),
{
    if a.len() != b.len() {
        return false;
    }
    let mut i: usize = 0;
    while i < a.len()
        invariant
            a@.len() == b@.len(),
            i <= a@.len(),
            forall|k: int| 0 <= k < i ==> ascii_lower(#[trigger] a@[k]) == ascii_lower(b@[k]),
        decreases a.len() - i,
    {
        if ascii_lower_char(a[i]) != ascii_lower_char(b[i]) {
            return false;
        }
        i = i + 1;
    }
    true
}

/// Equality of two character slices.
pub fn chars_eq(a: &[char], b: &[char]) -> (r: bool)
    ensures
        r == (a@ == b@),
{
    if a.len() != b.len() {
        return false;
    }
    let mut i: usize = 0;
    while i < a.len()
        invariant
            a@.len() == b@.len(),
            i <= a@.len(),
            forall|k: int| 0 <= k < i ==> a@[k] == b@[k],
        decreases a.len() - i,
    {
        if a[i] != b[i] {
            return false;
        }
        i = i + 1;
    }
    assert(a@ =~= b@);
    true
}

/// Whether `p` is a prefix of `s`.
pub open spec fn is_prefix(p: Seq<char>, s: Seq<char>) -> bool {
    p.len() <= s.len() && s.subrange(0, p.len() as int) == p
}

pub fn starts_with_chars(s: &[char], p: &[char]) -> (r: bool)
    ensures
        r == is_prefix(p@, s@),
{
    if p.len() > s.len() {
        return false;
    }
    let mut i: usize = 0;
    while i < p.len()
        invariant
            p@.len() <= s@.len(),
            i <= p@.len(),
            forall|k: int| 0 <= k < i ==> s@[k] == p@[k],
        decreases p.len() - i,
    {
        if s[i] != p[i] {
            assert(s@.subrange(0, p@.len() as int)[i as int] != p@[i as int]);
            return false;
        }
        i = i + 1;
    }
    assert(s@.subrange(0, p@.len() as int) =~= p@);
    true
}

/// Whether `p` is a suffix of `s`.
pub open spec fn is_suffix(p: Seq<char>, s: Seq<char>) -> bool {
    p.len() <= s.len() && s.subrange(s.len() - p.len(), s.len() as int) == p
}

pub fn ends_with_chars(s: &[char], p: &[char]) -> (r: bool)
    ensures
        r == is_suffix(p@, s@),
{
    if p.len() > s.len() {
        return false;
    }
    let off = s.len() - p.len();
    let mut i: usize = 0;
    while i < p.len()
        invariant
            p@.len() <= s@.len(),
            off == s@.len() - p@.len(),
            s@.len() == s.len(),
            i <= p@.len(),
            forall|k: int| 0 <= k < i ==> s@[off + k] == p@[k],
        decreases p.len() - i,
    {
        if s[off + i] != p[i] {
            assert(s@.subrange(off as int, s@.len() as int)[i as int] != p@[i as int]);
            return false;
        }
        i = i + 1;
    }
    assert(s@.subrange(off as int, s@.len() as int) =~= p@);
    true
}

/// Whether `c` occurs in `s`.
pub fn contains_char(s: &[char], c: char) -> (r: bool)
    ensures
        r == s@.contains(c),
{
    let mut i: usize = 0;
    while i < s.len()
        invariant
            i <= s@.len(),
            forall|k: int| 0 <= k < i ==> s@[k] != c,
        decreases s.len() - i,
    {
        if s[i] == c {
            return true;
        }
        i = i + 1;
    }
    false
}

} // verus!
