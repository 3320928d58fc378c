//! Text as sequences of characters: the few string operations release names,
//! config files and catalog queries are read and written with.

use vstd::prelude::*;
use vstd::string::*;

verus! {

/// `String::push` appends one character and changes nothing else.
pub assume_specification[ String::push ](s: &mut String, c: char)
    ensures
        final(s)@ == old(s)@.push(c),
;

// --- characters ---------------------------------------------------------------

/// The Unicode `White_Space` characters.
pub open spec fn is_space(c: char) -> bool {
    ||| '\u{9}' <= c <= '\u{D}'
    ||| c == ' '
    ||| c == '\u{85}'
    ||| c == '\u{A0}'
    ||| c == '\u{1680}'
    ||| '\u{2000}' <= c <= '\u{200A}'
    ||| c == '\u{2028}'
    ||| c == '\u{2029}'
    ||| c == '\u{202F}'
    ||| c == '\u{205F}'
    ||| c == '\u{3000}'
}

pub open spec fn is_digit(c: char) -> bool {
    '0' <= c <= '9'
}

pub open spec fn is_upper(c: char) -> bool {
    'A' <= c <= 'Z'
}

pub open spec fn is_lower(c: char) -> bool {
    'a' <= c <= 'z'
}

/// ASCII letters and digits.
pub open spec fn is_alnum(c: char) -> bool {
    is_digit(c) || is_upper(c) || is_lower(c)
}

/// The ASCII lower-case form; anything else is left alone.
pub open spec fn lower_char(c: char) -> char {
    if is_upper(c) {
        (c as u32 + 32) as char
    } else {
        c
    }
}

/// The ASCII upper-case form; anything else is left alone.
pub open spec fn upper_char(c: char) -> char {
    if is_lower(c) {
        (c as u32 - 32) as char
    } else {
        c
    }
}

pub fn space(c: char) -> (r: bool)
    ensures
        r == is_space(c),
{
    ('\u{9}' <= c && c <= '\u{D}') || c == ' ' || c == '\u{85}' || c == '\u{A0}' || c == '\u{1680}'
        || ('\u{2000}' <= c && c <= '\u{200A}') || c == '\u{2028}' || c == '\u{2029}' || c
        == '\u{202F}' || c == '\u{205F}' || c == '\u{3000}'
}

pub fn digit(c: char) -> (r: bool)
    ensures
        r == is_digit(c),
{
    '0' <= c && c <= '9'
}

pub fn alnum(c: char) -> (r: bool)
    ensures
        r == is_alnum(c),
{
    digit(c) || ('A' <= c && c <= 'Z') || ('a' <= c && c <= 'z')
}

pub fn to_lower(c: char) -> (r: char)
    ensures
        r == lower_char(c),
{
    if 'A' <= c && c <= 'Z' {
        (c as u8 + 32) as char
    } else {
        c
    }
}

pub fn to_upper(c: char) -> (r: char)
    ensures
        r == upper_char(c),
{
    if 'a' <= c && c <= 'z' {
        (c as u8 - 32) as char
    } else {
        c
    }
}

// --- strings and character vectors ---------------------------------------------

/// The characters of a string.
pub fn chars_of(s: &str) -> (r: Vec<char>)
    ensures
        r@ == s@,
{
    let mut out: Vec<char> = Vec::new();
    for c in it: s.chars()
        invariant
            it.seq() == s@,
            out@ == s@.take(it.index()),
    {
        assert(s@.take(it.index() + 1) == s@.take(it.index()).push(s@[it.index()]));
        out.push(c);
    }
    assert(s@.take(s@.len() as int) == s@);
    out
}

/// A string of the given characters.
pub fn string_of(s: &[char]) -> (r: String)
    ensures
        r@ == s@,
{
    let mut out = String::new();
    let mut i: usize = 0;
    while i < s.len()
        invariant
            i <= s.len(),
            out@ == s@.take(i as int),
        decreases s.len() - i,
    {
        assert(s@.take(i + 1) == s@.take(i as int).push(s@[i as int]));
        out.push(s[i]);
        i += 1;
    }
    assert(s@.take(s@.len() as int) == s@);
    out
}


/// Appends a run of characters.
pub fn push_all(out: &mut Vec<char>, s: &[char])
    ensures
        final(out)@ == old(out)@ + s@,
{
    let ghost before = out@;
    let mut i: usize = 0;
    while i < s.len()
        invariant
            i <= s.len(),
            out@ == before + s@.take(i as int),
        decreases s.len() - i,
    {
        assert(before + s@.take(i + 1) == (before + s@.take(i as int)).push(s@[i as int]));
        out.push(s[i]);
        i += 1;
    }
    assert(s@.take(s@.len() as int) == s@);
}

/// A copy of the characters from `from` up to `to`.
pub fn slice_of(s: &[char], from: usize, to: usize) -> (r: Vec<char>)
    requires
        from <= to <= s@.len(),
    ensures
        r@ == s@.subrange(from as int, to as int),
{
    let mut out: Vec<char> = Vec::new();
    let mut i: usize = from;
    while i < to
        invariant
            from <= i <= to <= s@.len(),
            out@ == s@.subrange(from as int, i as int),
        decreases to - i,
    {
        assert(s@.subrange(from as int, i + 1) == s@.subrange(from as int, i as int).push(
            s@[i as int],
        ));
        out.push(s[i]);
        i += 1;
    }
    out
}

/// Whether two runs of characters are the same.
pub fn same(a: &[char], b: &[char]) -> (r: bool)
    ensures
        r == (a@ == b@),
{
    if a.len() != b.len() {
        return false;
    }
    let mut i: usize = 0;
    while i < a.len()
        invariant
            i <= a.len() == b.len(),
            forall|j: int| 0 <= j < i ==> a@[j] == b@[j],
        decreases a.len() - i,
    {
        if a[i] != b[i] {
            return false;
        }
        i += 1;
    }
    assert(a@ =~= b@);
    true
}

/// Whether two strings are the same.
pub fn same_str(a: &str, b: &str) -> (r: bool)
    ensures
        r == (a@ == b@),
{
    let x = chars_of(a);
    let y = chars_of(b);
    same(x.as_slice(), y.as_slice())
}

/// The ASCII lower-case form of a text.
pub open spec fn lower(s: Seq<char>) -> Seq<char> {
    s.map_values(|c: char| lower_char(c))
}

/// The ASCII upper-case form of a text.
pub open spec fn upper(s: Seq<char>) -> Seq<char> {
    s.map_values(|c: char| upper_char(c))
}

pub fn lowered(s: &[char]) -> (r: Vec<char>)
    ensures
        r@ == lower(s@),
{
    let mut out: Vec<char> = Vec::new();
    let mut i: usize = 0;
    while i < s.len()
        invariant
            i <= s.len(),
            out@.len() == i,
            forall|j: int| 0 <= j < i ==> out@[j] == lower_char(s@[j]),
        decreases s.len() - i,
    {
        out.push(to_lower(s[i]));
        i += 1;
    }
    assert(out@ =~= lower(s@));
    out
}

pub fn uppered(s: &[char]) -> (r: Vec<char>)
    ensures
        r@ == upper(s@),
{
    let mut out: Vec<char> = Vec::new();
    let mut i: usize = 0;
    while i < s.len()
        invariant
            i <= s.len(),
            out@.len() == i,
            forall|j: int| 0 <= j < i ==> out@[j] == upper_char(s@[j]),
        decreases s.len() - i,
    {
        out.push(to_upper(s[i]));
        i += 1;
    }
    assert(out@ =~= upper(s@));
    out
}

/// Whether two texts agree but for ASCII case.
pub open spec fn same_ignoring_case(a: Seq<char>, b: Seq<char>) -> bool {
    lower(a) == lower(b)
}

// --- trimming ---------------------------------------------------------------------

pub open spec fn trim_start(s: Seq<char>) -> Seq<char>
    decreases s.len(),
{
    if s.len() > 0 && is_space(s[0]) {
        trim_start(s.drop_first())
    } else {
        s
    }
}

pub open spec fn trim_end(s: Seq<char>) -> Seq<char>
    decreases s.len(),
{
    if s.len() > 0 && is_space(s.last()) {
        trim_end(s.drop_last())
    } else {
        s
    }
}

/// The text without its leading and trailing white space.
pub open spec fn trim(s: Seq<char>) -> Seq<char> {
    trim_end(trim_start(s))
}

/// Where the text starts once its leading white space is gone.
pub fn start_of(s: &[char]) -> (r: usize)
    ensures
        r <= s@.len(),
        trim_start(s@) == s@.subrange(r as int, s@.len() as int),
{
    let mut i: usize = 0;
    assert(s@.subrange(0, s@.len() as int) == s@);
    while i < s.len() && space(s[i])
        invariant
            i <= s.len(),
            trim_start(s@) == trim_start(s@.subrange(i as int, s@.len() as int)),
        decreases s.len() - i,
    {
        assert(s@.subrange(i as int, s@.len() as int).drop_first() == s@.subrange(
            i + 1,
            s@.len() as int,
        ));
        i += 1;
    }
    i
}

pub fn trimmed_start(s: &[char]) -> (r: Vec<char>)
    ensures
        r@ == trim_start(s@),
{
    let i = start_of(s);
    slice_of(s, i, s.len())
}

pub fn trimmed(s: &[char]) -> (r: Vec<char>)
    ensures
        r@ == trim(s@),
{
    let i = start_of(s);
    let mut j: usize = s.len();
    while j > i && space(s[j - 1])
        invariant
            i <= j <= s@.len(),
            trim(s@) == trim_end(s@.subrange(i as int, j as int)),
        decreases j,
    {
        assert(s@.subrange(i as int, j as int).drop_last() == s@.subrange(i as int, j - 1));
        j -= 1;
    }
    slice_of(s, i, j)
}

// --- splitting --------------------------------------------------------------------

/// A class of separator characters.
#[derive(Clone, Copy)]
pub enum Separator {
    /// Unicode white space.
    Space,
    /// Anything that is not an ASCII letter or digit.
    Punctuation,
    /// One character.
    Only(char),
    /// Either slash.
    Slash,
}

impl Separator {
    pub open spec fn admits(self, c: char) -> bool {
        match self {
            Separator::Space => is_space(c),
            Separator::Punctuation => !is_alnum(c),
            Separator::Only(x) => c == x,
            Separator::Slash => c == '/' || c == '\\',
        }
    }

    pub fn is(self, c: char) -> (r: bool)
        ensures
            r == self.admits(c),
    {
        match self {
            Separator::Space => space(c),
            Separator::Punctuation => !alnum(c),
            Separator::Only(x) => c == x,
            Separator::Slash => c == '/' || c == '\\',
        }
    }
}

/// The pieces of a text between separators, empty pieces included.
pub open spec fn split(s: Seq<char>, sep: Separator) -> Seq<Seq<char>>
    decreases s.len(),
{
    if s.len() == 0 {
        seq![Seq::empty()]
    } else {
        let before = split(s.drop_last(), sep);
        if sep.admits(s.last()) {
            before.push(Seq::empty())
        } else {
            before.drop_last().push(before.last().push(s.last()))
        }
    }
}

/// The non-empty pieces of a text between separators.
pub open spec fn words(s: Seq<char>, sep: Separator) -> Seq<Seq<char>> {
    split(s, sep).filter(|w: Seq<char>| w.len() > 0)
}

/// A list of character vectors as the texts they hold.
pub open spec fn texts(v: Seq<Vec<char>>) -> Seq<Seq<char>> {
    v.map_values(|x: Vec<char>| x@)
}

/// A list of strings as the texts they hold.
pub open spec fn string_texts(v: Seq<String>) -> Seq<Seq<char>> {
    v.map_values(|x: String| x@)
}

/// A list of string slices as the texts they hold.
pub open spec fn str_texts(v: Seq<&str>) -> Seq<Seq<char>> {
    v.map_values(|x: &str| x@)
}

pub fn split_on(s: &[char], sep: Separator) -> (r: Vec<Vec<char>>)
    ensures
        texts(r@) == split(s@, sep),
{
    let mut done: Vec<Vec<char>> = Vec::new();
    let mut cur: Vec<char> = Vec::new();
    let mut i: usize = 0;
    assert(s@.take(0) == Seq::<char>::empty());
    assert(texts(done@).push(cur@) =~= split(s@.take(0), sep));
    while i < s.len()
        invariant
            i <= s.len(),
            texts(done@).push(cur@) == split(s@.take(i as int), sep),
        decreases s.len() - i,
    {
        let ghost done0 = done@;
        let ghost cur0 = cur@;
        assert(s@.take(i + 1).drop_last() == s@.take(i as int));
        let c = s[i];
        if sep.is(c) {
            done.push(cur);
            cur = Vec::new();
            assert(texts(done@) =~= texts(done0).push(cur0));
            assert(cur@ =~= Seq::empty());
        } else {
            cur.push(c);
            assert(texts(done0).push(cur0).drop_last() =~= texts(done0));
        }
        i += 1;
    }
    assert(s@.take(s@.len() as int) == s@);
    let ghost done0 = done@;
    let ghost cur0 = cur@;
    done.push(cur);
    assert(texts(done@) =~= texts(done0).push(cur0));
    done
}

/// Pushing one more element onto a filtered sequence.
pub proof fn lemma_filter_push<A>(s: Seq<A>, p: spec_fn(A) -> bool, x: A)
    ensures
        s.push(x).filter(p) == (if p(x) {
            s.filter(p).push(x)
        } else {
            s.filter(p)
        }),
{
    reveal(Seq::filter);
    assert(s.push(x).drop_last() =~= s);
}

pub fn words_on(s: &[char], sep: Separator) -> (r: Vec<Vec<char>>)
    ensures
        texts(r@) == words(s@, sep),
{
    let mut pieces = split_on(s, sep);
    let ghost all = texts(pieces@);
    let ghost keep = |w: Seq<char>| w.len() > 0;
    let mut out: Vec<Vec<char>> = Vec::new();
    let mut i: usize = 0;
    assert(texts(out@) =~= all.take(0).filter(keep)) by {
        reveal(Seq::filter);
    }
    while i < pieces.len()
        invariant
            i <= pieces.len(),
            texts(pieces@) == all,
            keep == (|w: Seq<char>| w.len() > 0),
            texts(out@) == all.take(i as int).filter(keep),
        decreases pieces.len() - i,
    {
        let ghost out0 = out@;
        let w = slice_of(pieces[i].as_slice(), 0, pieces[i].len());
        assert(w@ =~= all[i as int]);
        proof {
            lemma_filter_push(all.take(i as int), keep, w@);
            assert(all.take(i + 1) =~= all.take(i as int).push(w@));
        }
        if w.len() > 0 {
            let ghost wv = w@;
            out.push(w);
            assert(texts(out@) =~= texts(out0).push(wv));
        }
        i += 1;
    }
    assert(all.take(all.len() as int) =~= all);
    out
}

/// Whether a text is one of a list of texts.
pub fn has_text(list: &Vec<Vec<char>>, w: &[char]) -> (r: bool)
    ensures
        r == texts(list@).contains(w@),
{
    let mut i: usize = 0;
    while i < list.len()
        invariant
            i <= list.len(),
            forall|j: int| 0 <= j < i ==> #[trigger] texts(list@)[j] != w@,
        decreases list.len() - i,
    {
        assert(texts(list@)[i as int] == list@[i as int]@);
        if same(list[i].as_slice(), w) {
            return true;
        }
        i += 1;
    }
    false
}

// --- searching --------------------------------------------------------------------

/// The text starts with `p`.
pub open spec fn begins(s: Seq<char>, p: Seq<char>) -> bool {
    p.len() <= s.len() && s.take(p.len() as int) == p
}

/// The text ends with `p`.
pub open spec fn finishes(s: Seq<char>, p: Seq<char>) -> bool {
    p.len() <= s.len() && s.skip(s.len() - p.len()) == p
}

/// `p` stands in the text at position `i`.
pub open spec fn stands_at(s: Seq<char>, p: Seq<char>, i: int) -> bool {
    0 <= i && i + p.len() <= s.len() && s.subrange(i, i + p.len()) == p
}

/// `p` stands somewhere in the text.
pub open spec fn holds(s: Seq<char>, p: Seq<char>) -> bool {
    exists|i: int| stands_at(s, p, i)
}

pub fn at(s: &[char], p: &[char], i: usize) -> (r: bool)
    ensures
        r == stands_at(s@, p@, i as int),
{
    if p.len() > s.len() || i > s.len() - p.len() {
        return false;
    }
    let mut j: usize = 0;
    while j < p.len()
        invariant
            i + p.len() <= s.len(),
            j <= p.len(),
            forall|k: int| 0 <= k < j ==> s@[i + k] == p@[k],
        decreases p.len() - j,
    {
        if s[i + j] != p[j] {
            assert(s@.subrange(i as int, i + p.len())[j as int] != p@[j as int]);
            return false;
        }
        j += 1;
    }
    assert(s@.subrange(i as int, i + p.len()) =~= p@);
    true
}

/// The first place where `p` stands in the text.
pub fn find(s: &[char], p: &[char]) -> (r: Option<usize>)
    ensures
        match r {
            Some(i) => stands_at(s@, p@, i as int) && forall|j: int|
                0 <= j < i ==> !stands_at(s@, p@, j),
            None => !holds(s@, p@),
        },
{
    let mut i: usize = 0;
    loop
        invariant
            i <= s.len(),
            forall|j: int| 0 <= j < i ==> !stands_at(s@, p@, j),
        decreases s.len() - i,
    {
        if at(s, p, i) {
            return Some(i);
        }
        if i == s.len() {
            return None;
        }
        i += 1;
    }
}

pub fn contains(s: &[char], p: &[char]) -> (r: bool)
    ensures
        r == holds(s@, p@),
{
    find(s, p).is_some()
}

pub fn contains_str(s: &[char], p: &str) -> (r: bool)
    ensures
        r == holds(s@, p@),
{
    let q = chars_of(p);
    contains(s, q.as_slice())
}

pub fn starts_with(s: &[char], p: &[char]) -> (r: bool)
    ensures
        r == begins(s@, p@),
{
    let r = at(s, p, 0);
    if p.len() <= s.len() {
        assert(s@.subrange(0, p@.len() as int) =~= s@.take(p@.len() as int));
    }
    r
}

pub fn starts_with_str(s: &[char], p: &str) -> (r: bool)
    ensures
        r == begins(s@, p@),
{
    let q = chars_of(p);
    starts_with(s, q.as_slice())
}

pub fn ends_with(s: &[char], p: &[char]) -> (r: bool)
    ensures
        r == finishes(s@, p@),
{
    if p.len() > s.len() {
        return false;
    }
    assert(s@.subrange(s@.len() - p@.len(), s@.len() as int) =~= s@.skip(s@.len() - p@.len()));
    at(s, p, s.len() - p.len())
}

pub fn is_str(s: &[char], p: &str) -> (r: bool)
    ensures
        r == (s@ == p@),
{
    let q = chars_of(p);
    same(s, q.as_slice())
}

// --- joining ----------------------------------------------------------------------

/// The texts one after another, with `sep` between them.
pub open spec fn join(parts: Seq<Seq<char>>, sep: Seq<char>) -> Seq<char>
    decreases parts.len(),
{
    if parts.len() == 0 {
        Seq::empty()
    } else if parts.len() == 1 {
        parts[0]
    } else {
        join(parts.drop_last(), sep) + sep + parts.last()
    }
}

pub fn joined(parts: &Vec<Vec<char>>, sep: &str) -> (r: Vec<char>)
    ensures
        r@ == join(texts(parts@), sep@),
{
    let ghost all = texts(parts@);
    let sep = chars_of(sep);
    let mut out: Vec<char> = Vec::new();
    let mut i: usize = 0;
    assert(all.take(0).len() == 0);
    while i < parts.len()
        invariant
            i <= parts.len(),
            all == texts(parts@),
            out@ == join(all.take(i as int), sep@),
        decreases parts.len() - i,
    {
        assert(all.take(i + 1).drop_last() =~= all.take(i as int));
        assert(all[i as int] == parts@[i as int]@);
        if i > 0 {
            push_all(&mut out, sep.as_slice());
        } else {
            assert(out@ + parts@[0]@ =~= parts@[0]@);
        }
        push_all(&mut out, parts[i].as_slice());
        i += 1;
    }
    assert(all.take(all.len() as int) =~= all);
    out
}

// --- numbers ----------------------------------------------------------------------

pub open spec fn digit_char(d: nat) -> char {
    ('0' as u32 + d) as char
}

/// A number in decimal.
pub open spec fn decimal(n: nat) -> Seq<char>
    decreases n,
{
    if n < 10 {
        seq![digit_char(n)]
    } else {
        decimal(n / 10).push(digit_char(n % 10))
    }
}

/// Zeros in front until the text is at least `width` long.
pub open spec fn padded(s: Seq<char>, width: nat) -> Seq<char>
    decreases width - s.len(),
{
    if s.len() >= width {
        s
    } else {
        padded(seq!['0'] + s, width)
    }
}

/// A number in decimal, at least two digits of it.
pub open spec fn two_digits(n: nat) -> Seq<char> {
    padded(decimal(n), 2)
}

/// A number below ten gets a zero in front, others stay as they are.
pub proof fn lemma_two_digits(n: nat)
    ensures
        two_digits(n) == (if n < 10 {
            seq!['0'] + decimal(n)
        } else {
            decimal(n)
        }),
{
    reveal_with_fuel(padded, 3);
    lemma_decimal_len(n);
    if n < 10 {
        assert(two_digits(n) =~= seq!['0'] + decimal(n));
    }
}

proof fn lemma_decimal_len(n: nat)
    ensures
        decimal(n).len() >= 1,
        n < 10 <==> decimal(n).len() == 1,
    decreases n,
{
    if n >= 10 {
        lemma_decimal_len(n / 10);
    }
}

pub fn digit_of(d: u8) -> (r: char)
    requires
        d < 10,
    ensures
        r == digit_char(d as nat),
{
    (48u8 + d) as char
}

pub fn write_decimal(n: u64) -> (r: Vec<char>)
    ensures
        r@ == decimal(n as nat),
    decreases n,
{
    if n < 10 {
        let mut out: Vec<char> = Vec::new();
        out.push(digit_of(n as u8));
        assert(out@ =~= decimal(n as nat));
        out
    } else {
        let mut out = write_decimal(n / 10);
        out.push(digit_of((n % 10) as u8));
        out
    }
}

pub fn write_padded(n: u64, width: usize) -> (r: Vec<char>)
    ensures
        r@ == padded(decimal(n as nat), width as nat),
{
    let mut out = write_decimal(n);
    while out.len() < width
        invariant
            padded(out@, width as nat) == padded(decimal(n as nat), width as nat),
        decreases width - out.len(),
    {
        let ghost before = out@;
        out.insert(0, '0');
        assert(out@ =~= seq!['0'] + before);
    }
    out
}

/// The digits of a decimal number, most significant first.
pub open spec fn digits_value(s: Seq<char>) -> nat
    decreases s.len(),
{
    if s.len() == 0 {
        0
    } else {
        digits_value(s.drop_last()) * 10 + (s.last() as u32 - '0' as u32) as nat
    }
}

pub open spec fn all_digits(s: Seq<char>) -> bool {
    forall|i: int| 0 <= i < s.len() ==> is_digit(#[trigger] s[i])
}

/// The text without one leading plus sign.
pub open spec fn unsigned_part(s: Seq<char>) -> Seq<char> {
    if s.len() > 0 && s[0] == '+' {
        s.drop_first()
    } else {
        s
    }
}

/// A text read as an unsigned number no greater than `max`: an optional plus
/// sign, then digits and nothing else.
pub open spec fn parse_number(s: Seq<char>, max: nat) -> Option<nat> {
    let d = unsigned_part(s);
    if d.len() > 0 && all_digits(d) && digits_value(d) <= max {
        Some(digits_value(d))
    } else {
        None
    }
}

/// A longer run of digits is never a smaller number.
pub proof fn lemma_digits_grow(s: Seq<char>, i: int)
    requires
        0 <= i <= s.len(),
        all_digits(s),
    ensures
        digits_value(s.take(i)) <= digits_value(s),
    decreases s.len(),
{
    if i == s.len() {
        assert(s.take(i) =~= s);
    } else {
        assert(s.drop_last().take(i) =~= s.take(i));
        assert(all_digits(s.drop_last()));
        lemma_digits_grow(s.drop_last(), i);
        assert(is_digit(s[s.len() - 1]));
    }
}

pub fn read_number(s: &[char], max: u64) -> (r: Option<u64>)
    ensures
        match r {
            Some(n) => parse_number(s@, max as nat) == Some(n as nat),
            None => parse_number(s@, max as nat) is None,
        },
{
    let start: usize = if s.len() > 0 && s[0] == '+' {
        1
    } else {
        0
    };
    let ghost d = unsigned_part(s@);
    assert(d =~= s@.skip(start as int));
    if start == s.len() {
        return None;
    }
    let mut i: usize = start;
    let mut n: u64 = 0;
    assert(d.take(0).len() == 0);
    while i < s.len()
        invariant
            start <= i <= s.len(),
            start <= 1,
            d == s@.skip(start as int),
            d == unsigned_part(s@),
            d.len() > 0,
            n <= max,
            n as nat == digits_value(d.take(i - start)),
            all_digits(d.take(i - start)),
        decreases s.len() - i,
    {
        let c = s[i];
        let ghost k = i - start;
        assert(d[k] == c);
        if !digit(c) {
            assert(!all_digits(d));
            return None;
        }
        let v: u64 = (c as u32 - '0' as u32) as u64;
        assert(d.take(k + 1).drop_last() =~= d.take(k));
        assert(d.take(k + 1).last() == c);
        assert(digits_value(d.take(k + 1)) == n * 10 + v);
        if n > max / 10 || (n == max / 10 && v > max % 10) {
            proof {
                assert(digits_value(d.take(k + 1)) > max) by {
                    assert(max == (max / 10) * 10 + max % 10);
                }
                if all_digits(d) {
                    lemma_digits_grow(d, k + 1);
                }
            }
            return None;
        }
        assert(n * 10 + v <= max) by {
            assert(max == (max / 10) * 10 + max % 10);
        }
        n = n * 10 + v;
        i += 1;
    }
    assert(d.take(d.len() as int) =~= d);
    Some(n)
}

// --- order ------------------------------------------------------------------------

/// Text order: by the first character that differs, a prefix first.
pub open spec fn text_before(a: Seq<char>, b: Seq<char>) -> bool
    decreases b.len(),
{
    if b.len() == 0 {
        false
    } else if a.len() == 0 {
        true
    } else if a[0] != b[0] {
        a[0] < b[0]
    } else {
        text_before(a.drop_first(), b.drop_first())
    }
}

/// Texts are in order: none comes before itself, no two come before each other,
/// and not coming before is passed on.
pub proof fn texts_are_ordered(a: Seq<char>, b: Seq<char>, c: Seq<char>)
    ensures
        !text_before(a, a),
        text_before(a, b) ==> !text_before(b, a),
        !text_before(a, b) && !text_before(b, c) ==> !text_before(a, c),
    decreases a.len() + b.len() + c.len(),
{
    if a.len() > 0 {
        if b.len() > 0 && c.len() > 0 {
            texts_are_ordered(a.drop_first(), b.drop_first(), c.drop_first());
        } else if b.len() > 0 {
            texts_are_ordered(a.drop_first(), b.drop_first(), c);
        } else if c.len() > 0 {
            texts_are_ordered(a.drop_first(), b, c.drop_first());
        } else {
            texts_are_ordered(a.drop_first(), b, c);
        }
    }
}

pub fn comes_before(a: &[char], b: &[char]) -> (r: bool)
    ensures
        r == text_before(a@, b@),
{
    let mut i: usize = 0;
    assert(a@.skip(0) =~= a@);
    assert(b@.skip(0) =~= b@);
    while i < a.len() && i < b.len() && a[i] == b[i]
        invariant
            i <= a.len(),
            i <= b.len(),
            text_before(a@, b@) == text_before(a@.skip(i as int), b@.skip(i as int)),
        decreases a.len() - i,
    {
        assert(a@.skip(i as int).drop_first() =~= a@.skip(i + 1));
        assert(b@.skip(i as int).drop_first() =~= b@.skip(i + 1));
        i += 1;
    }
    if i == b.len() {
        false
    } else if i == a.len() {
        true
    } else {
        a[i] < b[i]
    }
}

/// Text order is a strict total order.
pub proof fn text_order(a: Seq<char>, b: Seq<char>, c: Seq<char>)
    ensures
        !text_before(a, a),
        text_before(a, b) ==> !text_before(b, a),
        a != b ==> text_before(a, b) || text_before(b, a),
        text_before(a, b) && text_before(b, c) ==> text_before(a, c),
        !text_before(a, b) && !text_before(b, c) ==> !text_before(a, c),
    decreases a.len() + b.len() + c.len(),
{
    if a.len() > 0 && b.len() > 0 {
        if c.len() > 0 {
            text_order(a.drop_first(), b.drop_first(), c.drop_first());
        } else {
            text_order(a.drop_first(), b.drop_first(), c);
        }
        if a[0] == b[0] && a.drop_first() == b.drop_first() {
            assert(a =~= seq![a[0]] + a.drop_first());
            assert(b =~= seq![b[0]] + b.drop_first());
        }
    } else if a.len() > 0 {
        if c.len() > 0 {
            text_order(a.drop_first(), b, c.drop_first());
        } else {
            text_order(a.drop_first(), b, c);
        }
    } else if b.len() == 0 {
        assert(a =~= b);
    }
}

// --- release names ----------------------------------------------------------------

/// Lower-cased, with everything but ASCII letters and digits made a space.
pub open spec fn flattened(s: Seq<char>) -> Seq<char> {
    s.map_values(
        |c: char|
            if is_alnum(lower_char(c)) {
                lower_char(c)
            } else {
                ' '
            },
    )
}

/// The flattened text with every run of spaces made one, and none at the ends.
pub open spec fn spaced(s: Seq<char>) -> Seq<char> {
    join(words(flattened(s), Separator::Space), " "@)
}

/// The spaced text with one space at either end.
pub open spec fn framed(s: Seq<char>) -> Seq<char> {
    " "@ + spaced(s) + " "@
}

/// `t` stands in the name as a run of whole words.
pub open spec fn has_words(s: Seq<char>, t: Seq<char>) -> bool {
    holds(framed(s), " "@ + t + " "@)
}

pub fn flatten(s: &[char]) -> (r: Vec<char>)
    ensures
        r@ == flattened(s@),
{
    let mut out: Vec<char> = Vec::new();
    let mut i: usize = 0;
    while i < s.len()
        invariant
            i <= s.len(),
            out@.len() == i,
            forall|j: int| 0 <= j < i ==> out@[j] == flattened(s@)[j],
        decreases s.len() - i,
    {
        let c = to_lower(s[i]);
        if alnum(c) {
            out.push(c);
        } else {
            out.push(' ');
        }
        i += 1;
    }
    assert(out@ =~= flattened(s@));
    out
}

pub fn space_out(s: &[char]) -> (r: Vec<char>)
    ensures
        r@ == spaced(s@),
{
    let flat = flatten(s);
    let w = words_on(flat.as_slice(), Separator::Space);
    joined(&w, " ")
}

pub fn frame(s: &[char]) -> (r: Vec<char>)
    ensures
        r@ == framed(s@),
{
    let inner = space_out(s);
    let mut out = chars_of(" ");
    push_all(&mut out, inner.as_slice());
    let end = chars_of(" ");
    push_all(&mut out, end.as_slice());
    out
}

/// Whether a framed name holds `t` as a run of whole words.
pub fn framed_has(framed: &[char], t: &[char]) -> (r: bool)
    ensures
        r == holds(framed@, " "@ + t@ + " "@),
{
    let mut p = chars_of(" ");
    push_all(&mut p, t);
    let end = chars_of(" ");
    push_all(&mut p, end.as_slice());
    contains(framed, p.as_slice())
}

pub fn framed_has_str(framed: &[char], t: &str) -> (r: bool)
    ensures
        r == holds(framed@, " "@ + t@ + " "@),
{
    let q = chars_of(t);
    framed_has(framed, q.as_slice())
}

// --- putting texts together -------------------------------------------------------

pub fn push_str(out: &mut Vec<char>, s: &str)
    ensures
        final(out)@ == old(out)@ + s@,
{
    let t = chars_of(s);
    push_all(out, t.as_slice());
}

pub fn push_decimal(out: &mut Vec<char>, n: u64)
    ensures
        final(out)@ == old(out)@ + decimal(n as nat),
{
    let t = write_decimal(n);
    push_all(out, t.as_slice());
}

/// The text of an optional string, empty where there is none.
pub open spec fn or_empty(s: Option<String>) -> Seq<char> {
    match s {
        Some(t) => t@,
        None => Seq::empty(),
    }
}

pub fn chars_or_empty(s: &Option<String>) -> (r: Vec<char>)
    ensures
        r@ == or_empty(*s),
{
    match s {
        Some(t) => chars_of(t.as_str()),
        None => Vec::new(),
    }
}

/// The place of the first `c` in a text.
pub open spec fn place_of(s: Seq<char>, c: char) -> Option<int>
    decreases s.len(),
{
    if s.len() == 0 {
        None
    } else if s[0] == c {
        Some(0)
    } else {
        match place_of(s.drop_first(), c) {
            Some(i) => Some(i + 1),
            None => None,
        }
    }
}

pub fn find_char(s: &[char], c: char) -> (r: Option<usize>)
    ensures
        match r {
            Some(i) => i < s@.len() && place_of(s@, c) == Some(i as int),
            None => place_of(s@, c) is None,
        },
{
    let mut i: usize = 0;
    assert(s@.skip(0) =~= s@);
    while i < s.len()
        invariant
            i <= s.len(),
            match place_of(s@.skip(i as int), c) {
                Some(k) => place_of(s@, c) == Some(k + i),
                None => place_of(s@, c) is None,
            },
        decreases s.len() - i,
    {
        if s[i] == c {
            return Some(i);
        }
        assert(s@.skip(i as int).drop_first() =~= s@.skip(i + 1));
        i += 1;
    }
    None
}

pub fn ends_with_str(s: &[char], p: &str) -> (r: bool)
    ensures
        r == finishes(s@, p@),
{
    let q = chars_of(p);
    ends_with(s, q.as_slice())
}

/// Two numbers between two words.
pub fn four(a: &str, x: &[char], b: &str, y: &[char]) -> (r: Vec<char>)
    ensures
        r@ == a@ + x@ + b@ + y@,
{
    let mut out = chars_of(a);
    push_all(&mut out, x);
    push_str(&mut out, b);
    push_all(&mut out, y);
    out
}

/// The first place at or behind `i` where `p` stands.
pub open spec fn place_from(s: Seq<char>, p: Seq<char>, i: int) -> Option<int>
    decreases s.len() + 1 - i,
{
    if i > s.len() {
        None
    } else if stands_at(s, p, i) {
        Some(i)
    } else {
        place_from(s, p, i + 1)
    }
}

/// The first place where `p` stands.
pub open spec fn first_place(s: Seq<char>, p: Seq<char>) -> Option<int> {
    place_from(s, p, 0)
}

pub fn find_text(s: &[char], p: &[char]) -> (r: Option<usize>)
    ensures
        match r {
            Some(i) => first_place(s@, p@) == Some(i as int) && i + p@.len() <= s@.len(),
            None => first_place(s@, p@) is None,
        },
{
    let mut i: usize = 0;
    let n = s.len();
    while i < n
        invariant
            i <= n,
            n == s@.len(),
            first_place(s@, p@) == place_from(s@, p@, i as int),
        decreases n - i,
    {
        if at(s, p, i) {
            return Some(i);
        }
        i += 1;
    }
    if at(s, p, i) {
        Some(i)
    } else {
        proof {
            reveal_with_fuel(place_from, 2);
        }
        None
    }
}

/// The text up to the first `c`.
pub open spec fn until(s: Seq<char>, c: char) -> Seq<char> {
    match place_of(s, c) {
        Some(i) => s.take(i),
        None => s,
    }
}

pub fn text_until(s: &[char], c: char) -> (r: Vec<char>)
    ensures
        r@ == until(s@, c),
{
    match find_char(s, c) {
        Some(i) => {
            let r = slice_of(s, 0, i);
            assert(r@ =~= s@.take(i as int));
            r
        },
        None => {
            let r = slice_of(s, 0, s.len());
            assert(r@ =~= s@);
            r
        },
    }
}

/// The text up to the first place where `p` stands.
pub open spec fn before_text(s: Seq<char>, p: Seq<char>) -> Seq<char> {
    match first_place(s, p) {
        Some(i) => s.take(i),
        None => s,
    }
}

pub fn text_before_text(s: &[char], p: &[char]) -> (r: Vec<char>)
    ensures
        r@ == before_text(s@, p@),
{
    match find_text(s, p) {
        Some(i) => {
            let r = slice_of(s, 0, i);
            assert(r@ =~= s@.take(i as int));
            r
        },
        None => {
            let r = slice_of(s, 0, s.len());
            assert(r@ =~= s@);
            r
        },
    }
}

/// Splitting always gives a piece.
pub proof fn lemma_split_some(s: Seq<char>, sep: Separator)
    ensures
        split(s, sep).len() > 0,
    decreases s.len(),
{
    if s.len() > 0 {
        lemma_split_some(s.drop_last(), sep);
    }
}

// --- cutting by bytes ---------------------------------------------------------------

/// The bytes a character takes in UTF-8.
pub open spec fn width(c: char) -> nat {
    if c as u32 <= 0x7f {
        1
    } else if c as u32 <= 0x7ff {
        2
    } else if c as u32 <= 0xffff {
        3
    } else {
        4
    }
}

/// The characters that take exactly the first `n` bytes, if some do.
pub open spec fn byte_prefix(s: Seq<char>, n: nat) -> Option<Seq<char>>
    decreases s.len(),
{
    if n == 0 {
        Some(Seq::empty())
    } else if s.len() == 0 || width(s[0]) > n {
        None
    } else {
        match byte_prefix(s.skip(1), (n - width(s[0])) as nat) {
            Some(p) => Some(seq![s[0]] + p),
            None => None,
        }
    }
}

/// The characters that take exactly the first `n` bytes, if some do.
pub fn cut_bytes(s: &[char], n: u8) -> (r: Option<Vec<char>>)
    ensures
        match r {
            Some(p) => byte_prefix(s@, n as nat) == Some(p@),
            None => byte_prefix(s@, n as nat) is None,
        },
{
    let end = s.len();
    let mut left: u8 = n;
    let mut i: usize = 0;
    assert(s@.skip(0) =~= s@);
    assert(s@.take(0) =~= Seq::empty());
    while left > 0
        invariant
            i <= end,
            end == s@.len(),
            left <= n,
            match byte_prefix(s@.skip(i as int), left as nat) {
                Some(p) => byte_prefix(s@, n as nat) == Some(s@.take(i as int) + p),
                None => byte_prefix(s@, n as nat) is None,
            },
        decreases left,
    {
        if i == end {
            return None;
        }
        let c = s[i];
        let w: u8 = if c as u32 <= 0x7f {
            1
        } else if c as u32 <= 0x7ff {
            2
        } else if c as u32 <= 0xffff {
            3
        } else {
            4
        };
        if w > left {
            return None;
        }
        proof {
            let rest = s@.skip(i as int);
            assert(rest[0] == c);
            assert(rest.skip(1) =~= s@.skip(i + 1));
            match byte_prefix(rest.skip(1), (left - w) as nat) {
                Some(p) => {
                    assert(s@.take(i as int) + (seq![c] + p) =~= s@.take(i + 1) + p);
                },
                None => {},
            }
        }
        left = left - w;
        i = i + 1;
    }
    assert(s@.take(i as int) + Seq::<char>::empty() =~= s@.take(i as int));
    Some(slice_of(s, 0, i))
}

// --- what holds of texts ----------------------------------------------------------

/// The case of a letter is a matter of 32: a capital and its small letter are that
/// far apart, and each turns into the other. Nothing else has a case.
pub proof fn letters_change_case(c: char, s: Seq<char>)
    ensures
        'A' <= c <= 'Z' ==> lower_char(c) as int == c as int + 32 && upper_char(lower_char(c)) == c,
        'a' <= c <= 'z' ==> upper_char(c) as int == c as int - 32 && lower_char(upper_char(c)) == c,
        !('A' <= c <= 'Z') ==> lower_char(c) == c,
        !('a' <= c <= 'z') ==> upper_char(c) == c,
        lower(s).len() == s.len(),
        forall|i: int| 0 <= i < s.len() ==> #[trigger] lower(s)[i] == lower_char(s[i]),
        upper(s).len() == s.len(),
        forall|i: int| 0 <= i < s.len() ==> #[trigger] upper(s)[i] == upper_char(s[i]),
        lower(lower(s)) == lower(s),
{
    assert(lower(lower(s)) =~= lower(s));
}

/// Flattening keeps letters and digits, in lower case, and makes a space of all
/// else.
pub proof fn flattening_keeps_letters(s: Seq<char>, i: int)
    requires
        0 <= i < s.len(),
    ensures
        flattened(s).len() == s.len(),
        ('0' <= s[i] <= '9' || 'a' <= s[i] <= 'z') ==> flattened(s)[i] == s[i],
        'A' <= s[i] <= 'Z' ==> flattened(s)[i] as int == s[i] as int + 32,
        !('0' <= s[i] <= '9' || 'a' <= s[i] <= 'z' || 'A' <= s[i] <= 'Z') ==> flattened(s)[i]
            == ' ',
{
}

proof fn lemma_trim_start(s: Seq<char>) -> (k: int)
    ensures
        0 <= k <= s.len(),
        trim_start(s) == s.skip(k),
        forall|i: int| 0 <= i < k ==> is_space(#[trigger] s[i]),
        k < s.len() ==> !is_space(s[k]),
    decreases s.len(),
{
    if s.len() > 0 && is_space(s[0]) {
        let t = s.drop_first();
        let k = lemma_trim_start(t);
        assert(t.skip(k) =~= s.skip(k + 1));
        assert forall|i: int| 0 <= i < k + 1 implies is_space(#[trigger] s[i]) by {
            if i > 0 {
                assert(t[i - 1] == s[i]);
            }
        }
        if k < t.len() {
            assert(t[k] == s[k + 1]);
        }
        k + 1
    } else {
        assert(s.skip(0) =~= s);
        0
    }
}

proof fn lemma_trim_end(s: Seq<char>) -> (k: int)
    ensures
        0 <= k <= s.len(),
        trim_end(s) == s.take(k),
        forall|i: int| k <= i < s.len() ==> is_space(#[trigger] s[i]),
        k > 0 ==> !is_space(s[k - 1]),
    decreases s.len(),
{
    if s.len() > 0 && is_space(s.last()) {
        let t = s.drop_last();
        let k = lemma_trim_end(t);
        assert(t.take(k) =~= s.take(k));
        assert forall|i: int| k <= i < s.len() implies is_space(#[trigger] s[i]) by {
            if i < t.len() {
                assert(t[i] == s[i]);
            }
        }
        if k > 0 {
            assert(t[k - 1] == s[k - 1]);
        }
        k
    } else {
        assert(s.take(s.len() as int) =~= s);
        s.len() as int
    }
}

/// Trimming takes blanks off both ends and nothing else, and leaves none there.
pub proof fn trimming_takes_only_blanks(s: Seq<char>)
    ensures
        exists|i: int, j: int|
            0 <= i <= j <= s.len() && #[trigger] s.subrange(i, j) == trim(s) && (forall|k: int|
                0 <= k < i ==> is_space(#[trigger] s[k])) && (forall|k: int|
                j <= k < s.len() ==> is_space(#[trigger] s[k])) && (i < j ==> !is_space(s[i])
                && !is_space(s[j - 1])),
        is_space(' '),
        is_space('\t'),
        is_space('\n'),
        is_space('\r'),
        forall|c: char| '!' <= c <= '~' ==> !#[trigger] is_space(c),
{
    let i = lemma_trim_start(s);
    let t = s.skip(i);
    let n = lemma_trim_end(t);
    let j = i + n;
    assert(t.take(n) =~= s.subrange(i, j));
    assert forall|k: int| j <= k < s.len() implies is_space(#[trigger] s[k]) by {
        assert(t[k - i] == s[k]);
    }
    if i < j {
        assert(t[n - 1] == s[j - 1]);
    }
}

proof fn lemma_join_push(parts: Seq<Seq<char>>, x: Seq<char>, sep: Seq<char>)
    requires
        parts.len() > 0,
    ensures
        join(parts.push(x), sep) == join(parts, sep) + sep + x,
{
    assert(parts.push(x).drop_last() =~= parts);
}

proof fn lemma_join_longer(parts: Seq<Seq<char>>, c: char, sep: Seq<char>)
    requires
        parts.len() > 0,
    ensures
        join(parts.drop_last().push(parts.last().push(c)), sep) == join(parts, sep).push(c),
{
    let t = parts.drop_last();
    let longer = t.push(parts.last().push(c));
    assert(longer.drop_last() =~= t);
    if t.len() == 0 {
        assert(longer.len() == 1);
        assert(join(longer, sep) == longer[0]);
    } else {
        assert(join(t, sep) + sep + parts.last().push(c) =~= (join(t, sep) + sep
            + parts.last()).push(c));
    }
}

/// What parts a text: blanks, whatever is neither a letter nor a digit, one
/// character alone, or a slash that leans either way.
pub proof fn separators_are_told_apart(c: char, x: char)
    ensures
        Separator::Space.admits(c) <==> is_space(c),
        Separator::Punctuation.admits(c) <==> !('0' <= c <= '9' || 'a' <= c <= 'z' || 'A' <= c
            <= 'Z'),
        Separator::Only(x).admits(c) <==> c == x,
        Separator::Slash.admits(c) <==> c == '/' || c == '\\',
{
}

/// Splitting puts every character that parts nothing into a part, in its order, and
/// starts another at each that does; the words are the parts that are not empty.
pub proof fn parts_grow_by_their_characters(s: Seq<char>, c: char, sep: Separator)
    ensures
        split(Seq::empty(), sep) == seq![Seq::<char>::empty()],
        split(s, sep).len() > 0,
        sep.admits(c) ==> split(s.push(c), sep) == split(s, sep).push(Seq::empty()),
        !sep.admits(c) ==> split(s.push(c), sep) == split(s, sep).drop_last().push(
            split(s, sep).last().push(c),
        ),
        forall|w: Seq<char>| #[trigger]
            words(s, sep).contains(w) <==> split(s, sep).contains(w) && w.len() > 0,
{
    lemma_split_some(s, sep);
    assert(s.push(c).drop_last() =~= s);
    let p = |w: Seq<char>| w.len() > 0;
    let parts = split(s, sep);
    assert forall|w: Seq<char>| #[trigger] words(s, sep).contains(w) implies parts.contains(w)
        && w.len() > 0 by {
        parts.lemma_filter_contains_rev(p, w);
        let k = choose|k: int| 0 <= k < parts.filter(p).len() && parts.filter(p)[k] == w;
        parts.lemma_filter_pred(p, k);
    }
    assert forall|w: Seq<char>| parts.contains(w) && w.len() > 0 implies #[trigger] words(
        s,
        sep,
    ).contains(w) by {
        let k = choose|k: int| 0 <= k < parts.len() && parts[k] == w;
        parts.lemma_filter_contains(p, k);
    }
}

/// Splitting at a character takes just the occurrences of it out: with it between
/// them the parts give the text back, and none of them has it.
pub proof fn splitting_loses_nothing(s: Seq<char>, c: char)
    ensures
        split(s, Separator::Only(c)).len() > 0,
        join(split(s, Separator::Only(c)), seq![c]) == s,
        forall|i: int|
            0 <= i < split(s, Separator::Only(c)).len() ==> !(#[trigger] split(
                s,
                Separator::Only(c),
            )[i]).contains(c),
    decreases s.len(),
{
    let sep = Separator::Only(c);
    let r = split(s, sep);
    if s.len() == 0 {
        assert(join(r, seq![c]) =~= s);
    } else {
        let t = s.drop_last();
        let before = split(t, sep);
        splitting_loses_nothing(t, c);
        if s.last() == c {
            lemma_join_push(before, Seq::empty(), seq![c]);
            assert(t + seq![c] + Seq::<char>::empty() =~= s);
            assert forall|i: int| 0 <= i < r.len() implies !(#[trigger] r[i]).contains(c) by {
                if i < before.len() {
                    assert(r[i] == before[i]);
                }
            }
        } else {
            lemma_join_longer(before, s.last(), seq![c]);
            assert(t.push(s.last()) =~= s);
            assert forall|i: int| 0 <= i < r.len() implies !(#[trigger] r[i]).contains(c) by {
                if i < before.len() - 1 {
                    assert(r[i] == before[i]);
                } else {
                    let w = before[before.len() - 1];
                    assert(r[i] == w.push(s.last()));
                    if r[i].contains(c) {
                        let k = choose|k: int| 0 <= k < r[i].len() && r[i][k] == c;
                        assert(w[k] == c);
                        assert(w.contains(c));
                    }
                }
            }
        }
    }
}

/// A number in decimal reads back as itself.
pub proof fn numbers_read_back(n: nat, max: nat)
    ensures
        n <= max ==> parse_number(decimal(n), max) == Some(n),
        n > max ==> parse_number(decimal(n), max) is None,
        n >= 10 ==> decimal(n)[0] != '0',
{
    lemma_decimal_value(n);
    assert(is_digit(decimal(n)[0]));
}

proof fn lemma_decimal_value(n: nat)
    ensures
        decimal(n).len() > 0,
        all_digits(decimal(n)),
        digits_value(decimal(n)) == n,
        n > 0 ==> decimal(n)[0] != '0',
    decreases n,
{
    let s = decimal(n);
    if n < 10 {
        assert(s.drop_last() =~= Seq::<char>::empty());
        assert(digits_value(s.drop_last()) == 0);
    } else {
        lemma_decimal_value(n / 10);
        let t = decimal(n / 10);
        assert(s.drop_last() =~= t);
        assert forall|i: int| 0 <= i < s.len() implies is_digit(#[trigger] s[i]) by {
            if i < t.len() {
                assert(is_digit(t[i]));
            }
        }
        assert(s[0] == t[0]);
    }
}

/// The first bytes of a text that starts with as many ASCII characters are those.
pub proof fn bytes_of_ascii_are_characters(s: Seq<char>, n: nat)
    requires
        n <= s.len(),
        forall|i: int| 0 <= i < n ==> (#[trigger] s[i] as u32) < 128,
    ensures
        byte_prefix(s, n) == Some(s.take(n as int)),
    decreases n,
{
    if n == 0 {
        assert(s.take(0) =~= Seq::<char>::empty());
    } else {
        let t = s.skip(1);
        assert((s[0] as u32) < 128);
        assert forall|i: int| 0 <= i < n - 1 implies (#[trigger] t[i] as u32) < 128 by {
            assert(t[i] == s[i + 1]);
        }
        bytes_of_ascii_are_characters(t, (n - 1) as nat);
        assert(seq![s[0]] + t.take(n - 1) =~= s.take(n as int));
    }
}

/// Texts are ordered by the first character in which they differ, and a text that
/// another only continues comes before it.
pub proof fn the_first_difference_orders(p: Seq<char>, a: Seq<char>, b: Seq<char>)
    ensures
        text_before(p + a, p + b) == text_before(a, b),
        a.len() > 0 && b.len() > 0 && a[0] < b[0] ==> text_before(p + a, p + b),
        a.len() == 0 && b.len() > 0 ==> text_before(p + a, p + b),
        b.len() == 0 ==> !text_before(p + a, p + b),
    decreases p.len(),
{
    if p.len() > 0 {
        let q = p.drop_first();
        the_first_difference_orders(q, a, b);
        assert((p + a).drop_first() =~= q + a);
        assert((p + b).drop_first() =~= q + b);
    } else {
        assert(p + a =~= a);
        assert(p + b =~= b);
    }
}

} // verus!
