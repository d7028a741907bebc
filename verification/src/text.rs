//! Character-level text helpers: whitespace trimming, ASCII case folding,
//! splitting and decimal digits, stated over `Seq<char>`.

use vstd::prelude::*;

verus! {

// ------------------------------------------------------------------------- //
// Character classes
// ------------------------------------------------------------------------- //

/// Unicode `White_Space`, the set that `char::is_whitespace` and `str::trim` use.
pub open spec fn is_ws(c: char) -> bool {
    let u = c as u32;
    ||| 0x09 <= u <= 0x0D
    ||| u == 0x20
    ||| u == 0x85
    ||| u == 0xA0
    ||| u == 0x1680
    ||| 0x2000 <= u <= 0x200A
    ||| u == 0x2028
    ||| u == 0x2029
    ||| u == 0x202F
    ||| u == 0x205F
    ||| u == 0x3000
}

pub open spec fn is_digit(c: char) -> bool {
    '0' <= c && c <= '9'
}

pub open spec fn is_alnum(c: char) -> bool {
    ||| '0' <= c && c <= '9'
    ||| 'a' <= c && c <= 'z'
    ||| 'A' <= c && c <= 'Z'
}

pub fn is_whitespace(c: char) -> (r: bool)
    ensures
        r == is_ws(c),
{
    let u = c as u32;
    (0x09 <= u && u <= 0x0D) || u == 0x20 || u == 0x85 || u == 0xA0 || u == 0x1680 || (0x2000
        <= u && u <= 0x200A) || u == 0x2028 || u == 0x2029 || u == 0x202F || u == 0x205F || u
        == 0x3000
}

pub fn is_ascii_digit(c: char) -> (r: bool)
    ensures
        r == is_digit(c),
{
    '0' <= c && c <= '9'
}

pub fn is_ascii_alnum(c: char) -> (r: bool)
    ensures
        r == is_alnum(c),
{
    ('0' <= c && c <= '9') || ('a' <= c && c <= 'z') || ('A' <= c && c <= 'Z')
}

// ------------------------------------------------------------------------- //
// ASCII case folding
// ------------------------------------------------------------------------- //

/// `char::to_ascii_lowercase`: `'A'..='Z'` map to `'a'..='z'`, all else is unchanged.
pub open spec fn lower_char(c: char) -> char {
    if 'A' <= c && c <= 'Z' {
        ((c as u32) + 32) as char
    } else {
        c
    }
}

pub open spec fn lower(s: Seq<char>) -> Seq<char> {
    s.map_values(|c: char| lower_char(c))
}

/// `eq_ignore_ascii_case`.
pub open spec fn eq_ignore_case(a: Seq<char>, b: Seq<char>) -> bool {
    lower(a) == lower(b)
}

pub fn to_lower_char(c: char) -> (r: char)
    ensures
        r == lower_char(c),
{
    if 'A' <= c && c <= 'Z' {
        ((c as u8) + 32) as char
    } else {
        c
    }
}

pub fn to_lower(v: &Vec<char>) -> (r: Vec<char>)
    ensures
        r@ == lower(v@),
{
    let mut r: Vec<char> = Vec::new();
    for i in 0..v.len()
        invariant
            r@ == lower(v@.take(i as int)),
    {
        r.push(to_lower_char(v[i]));
        assert(lower(v@.take(i + 1)) =~= lower(v@.take(i as int)).push(lower_char(v@[i as int])));
    }
    assert(v@.take(v.len() as int) =~= v@);
    r
}

pub fn chars_eq(a: &Vec<char>, b: &Vec<char>) -> (r: bool)
    ensures
        r == (a@ == b@),
{
    if a.len() != b.len() {
        return false;
    }
    for i in 0..a.len()
        invariant
            a.len() == b.len(),
            forall|j: int| 0 <= j < i ==> a@[j] == b@[j],
    {
        if a[i] != b[i] {
            return false;
        }
    }
    assert(a@ =~= b@);
    true
}

pub fn eq_ignore_ascii_case(a: &Vec<char>, b: &Vec<char>) -> (r: bool)
    ensures
        r == eq_ignore_case(a@, b@),
{
    let la = to_lower(a);
    let lb = to_lower(b);
    chars_eq(&la, &lb)
}

// ------------------------------------------------------------------------- //
// Conversions between `str`, `String` and `Vec<char>`
// ------------------------------------------------------------------------- //

/// The characters of a string slice, in order.
pub fn chars_of(s: &str) -> (v: Vec<char>)
    ensures
        v@ == s@,
{
    let mut v: Vec<char> = Vec::new();
    for c in it: s.chars()
        invariant
            v@ == it.seq().take(it.index() as int),
            it.seq() == s@,
    {
        v.push(c);
    }
    v
}

/// Appends one character to a `String` by calling `String::push`, which std
/// documents as appending the given `char` to the end of the string. The
/// contract claims exactly that: the characters afterwards are the old ones
/// followed by `c`.
#[verifier::external_body]
pub(crate) fn push_char(s: &mut String, c: char)
    ensures
        final(s)@ == old(s)@.push(c),
{
    s.push(c);
}

/// Appends characters to a `String`.
pub fn push_chars(s: &mut String, v: &Vec<char>)
    ensures
        final(s)@ == old(s)@ + v@,
{
    for i in 0..v.len()
        invariant
            s@ == old(s)@ + v@.take(i as int),
    {
        push_char(s, v[i]);
        assert(old(s)@ + v@.take(i + 1) =~= (old(s)@ + v@.take(i as int)).push(v@[i as int]));
    }
    assert(v@.take(v.len() as int) =~= v@);
}

pub fn string_of(v: &Vec<char>) -> (s: String)
    ensures
        s@ == v@,
{
    let mut s = String::new();
    push_chars(&mut s, v);
    s
}

/// The characters `v@[a..b]`.
pub fn sub_chars(v: &Vec<char>, a: usize, b: usize) -> (r: Vec<char>)
    requires
        a <= b <= v.len(),
    ensures
        r@ == v@.subrange(a as int, b as int),
{
    let mut r: Vec<char> = Vec::new();
    let mut i = a;
    while i < b
        invariant
            a <= i <= b <= v.len(),
            r@ == v@.subrange(a as int, i as int),
        decreases b - i,
    {
        r.push(v[i]);
        assert(v@.subrange(a as int, i + 1) =~= v@.subrange(a as int, i as int).push(v@[i as int]));
        i += 1;
    }
    r
}

// ------------------------------------------------------------------------- //
// Trimming
// ------------------------------------------------------------------------- //

/// Which characters a trim removes.
#[derive(Clone, Copy, PartialEq, Eq, Structural)]
pub enum Strip {
    /// Unicode whitespace (`str::trim`).
    Whitespace,
    /// The double quote (`str::trim_matches('"')`).
    Quote,
}

pub open spec fn strips(k: Strip, c: char) -> bool {
    match k {
        Strip::Whitespace => is_ws(c),
        Strip::Quote => c == '"',
    }
}

pub open spec fn strip_start(s: Seq<char>, k: Strip) -> Seq<char>
    decreases s.len(),
{
    if s.len() > 0 && strips(k, s[0]) {
        strip_start(s.drop_first(), k)
    } else {
        s
    }
}

pub open spec fn strip_end(s: Seq<char>, k: Strip) -> Seq<char>
    decreases s.len(),
{
    if s.len() > 0 && strips(k, s.last()) {
        strip_end(s.drop_last(), k)
    } else {
        s
    }
}

/// Both ends stripped, as `str::trim` / `str::trim_matches` do.
pub open spec fn strip(s: Seq<char>, k: Strip) -> Seq<char> {
    strip_end(strip_start(s, k), k)
}

/// `str::trim`.
pub open spec fn trim(s: Seq<char>) -> Seq<char> {
    strip(s, Strip::Whitespace)
}

fn strips_exec(k: Strip, c: char) -> (r: bool)
    ensures
        r == strips(k, c),
{
    match k {
        Strip::Whitespace => is_whitespace(c),
        Strip::Quote => c == '"',
    }
}

proof fn lemma_strip_start_skip(s: Seq<char>, k: Strip, i: int)
    requires
        0 <= i <= s.len(),
        forall|j: int| 0 <= j < i ==> strips(k, s[j]),
    ensures
        strip_start(s, k) == strip_start(s.subrange(i, s.len() as int), k),
    decreases i,
{
    if i > 0 {
        lemma_strip_start_skip(s.drop_first(), k, i - 1);
        assert(s.drop_first().subrange(i - 1, s.len() - 1) =~= s.subrange(i, s.len() as int));
    } else {
        assert(s.subrange(0, s.len() as int) =~= s);
    }
}

proof fn lemma_strip_end_cut(s: Seq<char>, k: Strip, j: int)
    requires
        0 <= j <= s.len(),
        forall|m: int| j <= m < s.len() ==> strips(k, s[m]),
    ensures
        strip_end(s, k) == strip_end(s.subrange(0, j), k),
    decreases s.len() - j,
{
    if j < s.len() {
        lemma_strip_end_cut(s.drop_last(), k, j);
        assert(s.drop_last().subrange(0, j) =~= s.subrange(0, j));
    } else {
        assert(s.subrange(0, j) =~= s);
    }
}

/// The characters of `v` with the stripped class removed from both ends.
pub fn strip_chars(v: &Vec<char>, k: Strip) -> (r: Vec<char>)
    ensures
        r@ == strip(v@, k),
{
    let n = v.len();
    let mut i: usize = 0;
    while i < n && strips_exec(k, v[i])
        invariant
            i <= n == v.len(),
            forall|j: int| 0 <= j < i ==> strips(k, v@[j]),
        decreases n - i,
    {
        i += 1;
    }
    let ghost rest = v@.subrange(i as int, n as int);
    proof {
        lemma_strip_start_skip(v@, k, i as int);
        assert(strip_start(rest, k) == rest);
    }
    let mut j: usize = n;
    while j > i && strips_exec(k, v[j - 1])
        invariant
            i <= j <= n == v.len(),
            rest == v@.subrange(i as int, n as int),
            forall|m: int| j <= m < n ==> strips(k, v@[m]),
        decreases j - i,
    {
        j -= 1;
    }
    proof {
        lemma_strip_end_cut(rest, k, (j - i) as int);
        let cut = rest.subrange(0, (j - i) as int);
        assert(cut =~= v@.subrange(i as int, j as int));
        assert(strip_end(cut, k) == cut);
    }
    sub_chars(v, i, j)
}

pub fn trim_chars(v: &Vec<char>) -> (r: Vec<char>)
    ensures
        r@ == trim(v@),
{
    strip_chars(v, Strip::Whitespace)
}

// ------------------------------------------------------------------------- //
// Splitting
// ------------------------------------------------------------------------- //

/// The separators of a split.
#[derive(Clone, Copy, PartialEq, Eq, Structural)]
pub enum Sep {
    /// `'\n'` (the line ends of `str::lines`).
    Newline,
    /// Every character that is not an ASCII letter or digit.
    NotAlnum,
    /// Every character that is not an ASCII digit.
    NotDigit,
    /// `','`.
    Comma,
}

pub open spec fn separates(k: Sep, c: char) -> bool {
    match k {
        Sep::Newline => c == '\n',
        Sep::NotAlnum => !is_alnum(c),
        Sep::NotDigit => !is_digit(c),
        Sep::Comma => c == ',',
    }
}

fn separates_exec(k: Sep, c: char) -> (r: bool)
    ensures
        r == separates(k, c),
{
    match k {
        Sep::Newline => c == '\n',
        Sep::NotAlnum => !is_ascii_alnum(c),
        Sep::NotDigit => !is_ascii_digit(c),
        Sep::Comma => c == ',',
    }
}

/// `str::split` by a character class: the pieces between separators, empty
/// pieces included; `n` separators give `n + 1` pieces.
pub open spec fn split(s: Seq<char>, k: Sep) -> Seq<Seq<char>>
    decreases s.len(),
{
    if s.len() == 0 {
        seq![Seq::<char>::empty()]
    } else {
        let p = split(s.drop_last(), k);
        if separates(k, s.last()) {
            p.push(Seq::<char>::empty())
        } else {
            p.update(p.len() - 1, p.last().push(s.last()))
        }
    }
}

pub proof fn lemma_split_nonempty(s: Seq<char>, k: Sep)
    ensures
        split(s, k).len() >= 1,
    decreases s.len(),
{
    if s.len() > 0 {
        lemma_split_nonempty(s.drop_last(), k);
    }
}

/// No piece of a split holds a separator.
pub proof fn lemma_split_pieces(s: Seq<char>, k: Sep)
    ensures
        forall|i: int, j: int|
            0 <= i < split(s, k).len() && 0 <= j < split(s, k)[i].len() ==> !separates(
                k,
                #[trigger] split(s, k)[i][j],
            ),
    decreases s.len(),
{
    if s.len() > 0 {
        lemma_split_pieces(s.drop_last(), k);
        lemma_split_nonempty(s.drop_last(), k);
    }
}

/// Splitting at a separator between two texts splits each of them.
pub proof fn lemma_split_join(a: Seq<char>, c: char, b: Seq<char>, k: Sep)
    requires
        separates(k, c),
    ensures
        split(a.push(c) + b, k) == split(a, k) + split(b, k),
    decreases b.len(),
{
    lemma_split_nonempty(a, k);
    if b.len() == 0 {
        assert(a.push(c) + b =~= a.push(c));
        assert(a.push(c).drop_last() =~= a);
        assert(split(a, k) + split(b, k) =~= split(a, k).push(Seq::<char>::empty()));
    } else {
        let b0 = b.drop_last();
        lemma_split_join(a, c, b0, k);
        lemma_split_nonempty(b0, k);
        assert((a.push(c) + b).drop_last() =~= a.push(c) + b0);
        assert((a.push(c) + b).last() == b.last());
        let pa = split(a, k);
        let pb = split(b0, k);
        if separates(k, b.last()) {
            assert((pa + pb).push(Seq::<char>::empty()) =~= pa + pb.push(Seq::<char>::empty()));
        } else {
            assert((pa + pb).update((pa + pb).len() - 1, (pa + pb).last().push(b.last())) =~= pa
                + pb.update(pb.len() - 1, pb.last().push(b.last())));
        }
    }
}

/// A text with no separator is a single piece.
pub proof fn lemma_split_single(s: Seq<char>, k: Sep)
    requires
        forall|i: int| 0 <= i < s.len() ==> !separates(k, #[trigger] s[i]),
    ensures
        split(s, k) == seq![s],
    decreases s.len(),
{
    if s.len() > 0 {
        lemma_split_single(s.drop_last(), k);
        assert(!separates(k, s[s.len() - 1]));
        assert(s.drop_last().push(s.last()) =~= s);
        assert(seq![s.drop_last()].update(0, s.drop_last().push(s.last())) =~= seq![s]);
    } else {
        assert(s =~= Seq::<char>::empty());
    }
}

/// A text whose end characters are not stripped is left as it is.
pub proof fn lemma_strip_clean(s: Seq<char>, k: Strip)
    requires
        s.len() > 0 ==> !strips(k, s[0]) && !strips(k, s.last()),
    ensures
        strip(s, k) == s,
{
}

/// Trimming a text after one leading space.
pub proof fn lemma_trim_after_space(s: Seq<char>)
    requires
        s.len() > 0,
        !is_ws(s[0]),
        !is_ws(s.last()),
    ensures
        trim(seq![' '] + s) == s,
{
    let t = seq![' '] + s;
    assert(t.drop_first() =~= s);
    assert(is_ws(t[0]));
    assert(strip_start(t, Strip::Whitespace) == strip_start(s, Strip::Whitespace));
}

/// The first `c` of `s` is at `i`.
pub proof fn lemma_find_at(s: Seq<char>, c: char, i: int)
    requires
        0 <= i < s.len(),
        s[i] == c,
        forall|j: int| 0 <= j < i ==> s[j] != c,
    ensures
        find(s, c) == Some(i),
{
    assert(0 <= i < s.len() && s[i] == c && forall|j: int| 0 <= j < i ==> s[j] != c);
    let w = choose|w: int| 0 <= w < s.len() && s[w] == c && forall|j: int| 0 <= j < w ==> s[j] != c;
    if w < i {
        assert(s[w] != c);
    } else if w > i {
        assert(s[i] != c);
    }
}

/// The character sequences of a vector of character vectors.
pub open spec fn seqs(v: Seq<Vec<char>>) -> Seq<Seq<char>> {
    v.map_values(|x: Vec<char>| x@)
}

/// The pieces of `v` between the separators of class `k`.
pub fn split_chars(v: &Vec<char>, k: Sep) -> (r: Vec<Vec<char>>)
    ensures
        r.len() == split(v@, k).len(),
        forall|i: int| 0 <= i < r.len() ==> (#[trigger] r[i])@ == split(v@, k)[i],
        seqs(r@) == split(v@, k),
{
    let mut pieces: Vec<Vec<char>> = Vec::new();
    let mut cur: Vec<char> = Vec::new();
    for i in 0..v.len()
        invariant
            pieces.len() + 1 == split(v@.take(i as int), k).len(),
            forall|j: int|
                0 <= j < pieces.len() ==> (#[trigger] pieces[j])@ == split(v@.take(i as int), k)[j],
            cur@ == split(v@.take(i as int), k).last(),
    {
        let ghost pre = v@.take(i as int);
        let ghost post = v@.take(i + 1);
        proof {
            assert(post.drop_last() =~= pre);
            lemma_split_nonempty(pre, k);
        }
        let c = v[i];
        if separates_exec(k, c) {
            pieces.push(cur);
            cur = Vec::new();
        } else {
            cur.push(c);
        }
    }
    assert(v@.take(v.len() as int) =~= v@);
    pieces.push(cur);
    assert(seqs(pieces@) =~= split(v@, k));
    pieces
}

// ------------------------------------------------------------------------- //
// Searching
// ------------------------------------------------------------------------- //

/// The position of the first `c` in `s`, if any.
pub open spec fn find(s: Seq<char>, c: char) -> Option<int> {
    if exists|i: int| 0 <= i < s.len() && s[i] == c {
        Some(choose|i: int| 0 <= i < s.len() && s[i] == c && forall|j: int| 0 <= j < i ==> s[j] != c)
    } else {
        None
    }
}

/// `str::split_once(c)`: the text before and after the first `c`.
pub open spec fn split_once(s: Seq<char>, c: char) -> Option<(Seq<char>, Seq<char>)> {
    match find(s, c) {
        Some(i) => Some((s.subrange(0, i), s.subrange(i + 1, s.len() as int))),
        None => None,
    }
}

pub fn find_char(v: &Vec<char>, c: char) -> (r: Option<usize>)
    ensures
        match r {
            Some(i) => {
                &&& find(v@, c) == Some(i as int)
                &&& i < v@.len()
                &&& v@[i as int] == c
                &&& forall|j: int| 0 <= j < i ==> v@[j] != c
            },
            None => find(v@, c) is None,
        },
{
    for i in 0..v.len()
        invariant
            forall|j: int| 0 <= j < i ==> v@[j] != c,
    {
        if v[i] == c {
            proof {
                let w = choose|w: int|
                    0 <= w < v@.len() && v@[w] == c && forall|j: int| 0 <= j < w ==> v@[j] != c;
                assert(0 <= w < v@.len() && v@[w] == c && forall|j: int| 0 <= j < w ==> v@[j] != c) by {
                    assert(0 <= i < v@.len() && v@[i as int] == c);
                }
                if w < i {
                } else if w > i {
                    assert(v@[i as int] != c);
                }
            }
            return Some(i);
        }
    }
    None
}

// ------------------------------------------------------------------------- //
// Occurrences of a pattern
// ------------------------------------------------------------------------- //

/// Whether `p` occurs in `s` starting at position `i`.
pub open spec fn occurs_at(s: Seq<char>, p: Seq<char>, i: int) -> bool {
    0 <= i && i + p.len() <= s.len() && s.subrange(i, i + p.len()) == p
}

/// Whether `p` occurs in `s`.
pub open spec fn occurs_in(s: Seq<char>, p: Seq<char>) -> bool {
    exists|i: int| occurs_at(s, p, i)
}

pub fn occurs_at_exec(s: &Vec<char>, p: &Vec<char>, i: usize) -> (r: bool)
    ensures
        r == occurs_at(s@, p@, i as int),
{
    if i > s.len() || p.len() > s.len() - i {
        return false;
    }
    for j in 0..p.len()
        invariant
            i + p.len() <= s.len(),
            forall|m: int| 0 <= m < j ==> s@[i + m] == p@[m],
    {
        if s[i + j] != p[j] {
            assert(s@.subrange(i as int, i + p.len())[j as int] != p@[j as int]);
            return false;
        }
    }
    assert(s@.subrange(i as int, i + p.len()) =~= p@);
    true
}

pub fn occurs_in_exec(s: &Vec<char>, p: &Vec<char>) -> (r: bool)
    ensures
        r == occurs_in(s@, p@),
{
    for i in 0..s.len()
        invariant
            forall|m: int| 0 <= m < i ==> !occurs_at(s@, p@, m),
    {
        if occurs_at_exec(s, p, i) {
            return true;
        }
    }
    if occurs_at_exec(s, p, s.len()) {
        return true;
    }
    assert forall|m: int| !occurs_at(s@, p@, m) by {
        if 0 <= m && m < s.len() {
        }
    }
    false
}

// ------------------------------------------------------------------------- //
// Decimal digits
// ------------------------------------------------------------------------- //

pub open spec fn digit_char(d: nat) -> char {
    ((48 + d) as u32) as char
}

/// The decimal representation of `n`, with no leading zeros (`"0"` for zero).
pub open spec fn decimal(n: nat) -> Seq<char>
    decreases n,
{
    if n < 10 {
        seq![digit_char(n)]
    } else {
        decimal(n / 10).push(digit_char(n % 10))
    }
}

/// The value of a string of decimal digits.
pub open spec fn digits_value(s: Seq<char>) -> nat
    decreases s.len(),
{
    if s.len() == 0 {
        0
    } else {
        digits_value(s.drop_last()) * 10 + ((s.last() as u32) - 48) as nat
    }
}

/// The decimal representation of `n` is a non-empty string of digits whose
/// value is `n`.
pub proof fn lemma_decimal_digits(n: nat)
    ensures
        decimal(n).len() > 0,
        forall|i: int| 0 <= i < decimal(n).len() ==> #[trigger] is_digit(decimal(n)[i]),
        digits_value(decimal(n)) == n,
    decreases n,
{
    if n < 10 {
        assert(seq![digit_char(n)].drop_last() =~= Seq::<char>::empty());
        assert((digit_char(n) as u32) == 48 + n);
        assert(decimal(n).drop_last() =~= Seq::<char>::empty());
        assert(decimal(n).last() == digit_char(n));
        assert(digits_value(Seq::<char>::empty()) == 0);
    } else {
        lemma_decimal_digits(n / 10);
        let d = decimal(n / 10);
        assert(decimal(n).drop_last() =~= d);
        assert((digit_char(n % 10) as u32) == 48 + n % 10);
        assert(decimal(n).last() == digit_char(n % 10));
        assert(digits_value(decimal(n)) == digits_value(d) * 10 + ((digit_char(n % 10) as u32) - 48) as nat);
        assert(digits_value(d) == n / 10);
        assert(n / 10 * 10 + n % 10 == n) by (nonlinear_arith);
        assert forall|i: int| 0 <= i < decimal(n).len() implies #[trigger] is_digit(decimal(n)[i]) by {
            if i < d.len() {
                assert(decimal(n)[i] == d[i]);
            }
        }
    }
}

fn digit_of(d: u64) -> (c: char)
    requires
        d < 10,
    ensures
        c == digit_char(d as nat),
{
    ((d as u8) + 48) as char
}

/// `n.to_string()`.
pub fn decimal_chars(n: u64) -> (r: Vec<char>)
    ensures
        r@ == decimal(n as nat),
    decreases n,
{
    if n < 10 {
        let mut r = Vec::new();
        r.push(digit_of(n));
        assert(r@ =~= seq![digit_char(n as nat)]);
        r
    } else {
        let mut r = decimal_chars(n / 10);
        r.push(digit_of(n % 10));
        r
    }
}

// ------------------------------------------------------------------------- //
// Words
// ------------------------------------------------------------------------- //

/// A word as the readers compare it: trimmed and ASCII lower-cased.
pub open spec fn normalized(w: Seq<char>) -> Seq<char> {
    lower(trim(w))
}

pub fn normalize(w: &Vec<char>) -> (r: Vec<char>)
    ensures
        r@ == normalized(w@),
{
    let t = trim_chars(w);
    to_lower(&t)
}

/// Whether `v` spells `w`.
pub fn is_word(v: &Vec<char>, w: &str) -> (r: bool)
    ensures
        r == (v@ == w@),
{
    let c = chars_of(w);
    chars_eq(v, &c)
}

/// A word that has no whitespace at either end and no ASCII capital is its
/// own normal form.
pub proof fn lemma_normalized_plain(w: Seq<char>)
    requires
        w.len() > 0,
        !is_ws(w[0]),
        !is_ws(w.last()),
        forall|i: int| 0 <= i < w.len() ==> !('A' <= #[trigger] w[i] && w[i] <= 'Z'),
    ensures
        normalized(w) == w,
{
    assert(strip_start(w, Strip::Whitespace) == w);
    assert(strip_end(w, Strip::Whitespace) == w);
    assert(lower(w) =~= w);
}

// ------------------------------------------------------------------------- //
// Line breaks
// ------------------------------------------------------------------------- //

/// Line breaks (`\n`, `\r`) turned into spaces.
pub open spec fn flattened(s: Seq<char>) -> Seq<char> {
    s.map_values(|c: char| if c == '\n' || c == '\r' { ' ' } else { c })
}

pub fn flatten(v: &Vec<char>) -> (r: Vec<char>)
    ensures
        r@ == flattened(v@),
{
    let mut r: Vec<char> = Vec::new();
    for i in 0..v.len()
        invariant
            r@ == flattened(v@.take(i as int)),
    {
        let c = v[i];
        if c == '\n' || c == '\r' {
            r.push(' ');
        } else {
            r.push(c);
        }
        assert(flattened(v@.take(i + 1)) =~= flattened(v@.take(i as int)).push(
            if c == '\n' || c == '\r' {
                ' '
            } else {
                c
            },
        ));
    }
    assert(v@.take(v.len() as int) =~= v@);
    r
}

/// No flattened text holds a line break, and flattening keeps the length.
pub proof fn lemma_flattened(s: Seq<char>)
    ensures
        flattened(s).len() == s.len(),
        forall|i: int| 0 <= i < s.len() ==> #[trigger] flattened(s)[i] != '\n' && flattened(s)[i] != '\r',
{
}

} // verus!
