//! Characters and strings: the small vocabulary the other modules are
//! written and specified in.
use vstd::prelude::*;

verus! {

/// `String::push` appends one character to the end of the string.
pub assume_specification[ String::push ](s: &mut String, c: char)
    ensures
        final(s)@ == old(s)@.push(c),
;

/// `String::push_str` appends a string to the end of the string.
pub assume_specification[ String::push_str ](s: &mut String, t: &str)
    ensures
        final(s)@ == old(s)@ + t@,
;

/// `str::to_lowercase`, character sequence to character sequence.
pub uninterp spec fn lowercase(s: Seq<char>) -> Seq<char>;

/// Calls `str::to_lowercase`, whose Unicode case tables are named by
/// [`lowercase`] and not spelled out.
#[verifier::external_body]
pub(crate) fn to_lowercase(s: &str) -> (r: String)
    ensures
        r@ == lowercase(s@),
{
    s.to_lowercase()
}

/// `char::is_uppercase`, the Unicode `Uppercase` property.
pub uninterp spec fn uppercase_char(c: char) -> bool;

/// Calls `char::is_uppercase`, whose property table is named by
/// [`uppercase_char`].
#[verifier::external_body]
pub(crate) fn is_uppercase(c: char) -> (r: bool)
    ensures
        r == uppercase_char(c),
{
    c.is_uppercase()
}

/// A string as `{:?}` writes it: in double quotes, with escapes.
pub uninterp spec fn debug_quoted(s: Seq<char>) -> Seq<char>;

/// Calls `str`'s `Debug` formatting, whose escapes are named by
/// [`debug_quoted`] and not spelled out.
#[verifier::external_body]
pub(crate) fn quoted(s: &str) -> (r: String)
    ensures
        r@ == debug_quoted(s@),
{
    format!("{:?}", s)
}

/// The characters of `s`, in order.
pub fn chars_of(s: &str) -> (r: Vec<char>)
    ensures
        r@ == s@,
{
    let mut out: Vec<char> = Vec::new();
    for c in it: s.chars()
        invariant
            it.seq() == s@,
            out@ == s@.take(it.index() as int),
    {
        out.push(c);
    }
    out
}

/// The string that holds `chars[from..to]`.
pub fn string_between(chars: &Vec<char>, from: usize, to: usize) -> (r: String)
    requires
        from <= to <= chars.len(),
    ensures
        r@ == chars@.subrange(from as int, to as int),
{
    let mut out = String::new();
    let mut i: usize = from;
    while i < to
        invariant
            from <= i <= to <= chars.len(),
            out@ == chars@.subrange(from as int, i as int),
        decreases to - i,
    {
        out.push(chars[i]);
        i = i + 1;
    }
    out
}

/// The string that holds `chars`.
pub fn string_of(chars: &Vec<char>) -> (r: String)
    ensures
        r@ == chars@,
{
    proof { assert(chars@.subrange(0, chars@.len() as int) == chars@); }
    string_between(chars, 0, chars.len())
}

/// Whether two strings hold the same characters.
pub fn same_str(a: &str, b: &str) -> (r: bool)
    ensures
        r == (a@ == b@),
{
    a.to_owned() == b.to_owned()
}

/// `n` copies of `c`.
pub open spec fn run_of(c: char, n: nat) -> Seq<char> {
    Seq::new(n, |i: int| c)
}

/// `n` spaces.
pub open spec fn spaces(n: nat) -> Seq<char> {
    run_of(' ', n)
}

/// The string of `n` copies of `c`.
pub fn repeat_char(c: char, n: usize) -> (r: String)
    ensures
        r@ == run_of(c, n as nat),
{
    let mut out = String::new();
    for i in 0..n
        invariant
            out@ == run_of(c, i as nat),
    {
        out.push(c);
    }
    out
}

/// The decimal digit `d`, for `d` below ten.
pub open spec fn digit(d: nat) -> char {
    if d == 0 {
        '0'
    } else if d == 1 {
        '1'
    } else if d == 2 {
        '2'
    } else if d == 3 {
        '3'
    } else if d == 4 {
        '4'
    } else if d == 5 {
        '5'
    } else if d == 6 {
        '6'
    } else if d == 7 {
        '7'
    } else if d == 8 {
        '8'
    } else {
        '9'
    }
}

/// `n` in decimal, without leading zeros.
pub open spec fn decimal(n: nat) -> Seq<char>
    decreases n,
{
    if n < 10 {
        seq![digit(n)]
    } else {
        decimal(n / 10).push(digit(n % 10))
    }
}

fn digit_char(d: u64) -> (c: char)
    requires
        d < 10,
    ensures
        c == digit(d as nat),
{
    if d == 0 {
        '0'
    } else if d == 1 {
        '1'
    } else if d == 2 {
        '2'
    } else if d == 3 {
        '3'
    } else if d == 4 {
        '4'
    } else if d == 5 {
        '5'
    } else if d == 6 {
        '6'
    } else if d == 7 {
        '7'
    } else if d == 8 {
        '8'
    } else {
        '9'
    }
}

/// `n` in decimal.
pub fn decimal_string(n: u64) -> (r: String)
    ensures
        r@ == decimal(n as nat),
    decreases n,
{
    let mut out = if n < 10 {
        String::new()
    } else {
        decimal_string(n / 10)
    };
    out.push(digit_char(n % 10));
    out
}

/// `n` in decimal.
pub fn decimal_wide(n: u128) -> (r: String)
    ensures
        r@ == decimal(n as nat),
    decreases n,
{
    let mut out = if n < 10 {
        String::new()
    } else {
        decimal_wide(n / 10)
    };
    out.push(digit_char((n % 10) as u64));
    out
}

/// Whether `c` has the Unicode `White_Space` property.
pub open spec fn whitespace(c: char) -> bool {
    let u = c as u32;
    ||| 0x09 <= u <= 0x0D
    ||| u == 0x20
    ||| u == 0x85
    ||| u == 0xA0
    ||| u == 0x1680
    ||| 0x2000 <= u <= 0x200A
    ||| u == 0x2028
    ||| u == 0x2029
    ||| u == 0x202F
    ||| u == 0x205F
    ||| u == 0x3000
}

/// Whether `c` has the Unicode `White_Space` property.
pub fn is_whitespace(c: char) -> (r: bool)
    ensures
        r == whitespace(c),
{
    let u: u32 = c as u32;
    (0x09 <= u && u <= 0x0D) || u == 0x20 || u == 0x85 || u == 0xA0 || u == 0x1680 || (0x2000 <= u
        && u <= 0x200A) || u == 0x2028 || u == 0x2029 || u == 0x202F || u == 0x205F || u == 0x3000
}

/// Every character of `s` is whitespace.
pub open spec fn all_whitespace(s: Seq<char>) -> bool {
    forall|i: int| 0 <= i < s.len() ==> whitespace(#[trigger] s[i])
}

/// Whether every character of `s` is whitespace.
pub fn is_all_whitespace(s: &str) -> (r: bool)
    ensures
        r == all_whitespace(s@),
{
    let cs = chars_of(s);
    let n: usize = cs.len();
    for i in 0..n
        invariant
            cs@ == s@,
            n == cs.len(),
            all_whitespace(s@.take(i as int)),
    {
        if !is_whitespace(cs[i]) {
            assert(!whitespace(s@[i as int]));
            return false;
        }
    }
    assert(s@.take(n as int) == s@);
    true
}

/// Whether the first character of `s` is `c`.
pub fn starts_with_char(s: &str, c: char) -> (r: bool)
    ensures
        r == (s@.len() > 0 && s@[0] == c),
{
    for d in it: s.chars()
        invariant
            it.seq() == s@,
            it.index() == 0,
    {
        return d == c;
    }
    false
}

/// Whether `s` holds `c`.
pub fn contains_char(s: &str, c: char) -> (r: bool)
    ensures
        r == s@.contains(c),
{
    let cs = chars_of(s);
    let n: usize = cs.len();
    for i in 0..n
        invariant
            cs@ == s@,
            n == cs.len(),
            forall|j: int| 0 <= j < i ==> s@[j] != c,
    {
        if cs[i] == c {
            assert(s@[i as int] == c);
            return true;
        }
    }
    false
}

/// `p` is a prefix of `s`.
pub open spec fn has_prefix(s: Seq<char>, p: Seq<char>) -> bool {
    p.len() <= s.len() && s.take(p.len() as int) == p
}

/// Whether `p` is a prefix of `s`.
pub fn starts_with(s: &str, p: &str) -> (r: bool)
    ensures
        r == has_prefix(s@, p@),
{
    let a = chars_of(s);
    let b = chars_of(p);
    if b.len() > a.len() {
        return false;
    }
    let n: usize = b.len();
    for i in 0..n
        invariant
            a@ == s@,
            b@ == p@,
            n == b.len() <= a.len(),
            forall|j: int| 0 <= j < i ==> s@[j] == p@[j],
    {
        if a[i] != b[i] {
            assert(s@.take(p@.len() as int)[i as int] != p@[i as int]);
            return false;
        }
    }
    assert(s@.take(p@.len() as int) == p@);
    true
}

/// The lines that a newline has ended, and what follows the last newline.
#[verifier::ext_equal]
pub struct LineCut {
    pub lines: Seq<Seq<char>>,
    pub open: Seq<char>,
}

/// A line without the carriage return before its newline.
pub open spec fn without_cr(line: Seq<char>) -> Seq<char> {
    if line.len() > 0 && line.last() == '\r' {
        line.drop_last()
    } else {
        line
    }
}

/// The lines of `s` that a newline ends, and the rest.
pub open spec fn line_cut(s: Seq<char>) -> LineCut
    decreases s.len(),
{
    if s.len() == 0 {
        LineCut { lines: Seq::empty(), open: Seq::empty() }
    } else {
        let before = line_cut(s.drop_last());
        if s.last() == '\n' {
            LineCut { lines: before.lines.push(without_cr(before.open)), open: Seq::empty() }
        } else {
            LineCut { lines: before.lines, open: before.open.push(s.last()) }
        }
    }
}

/// The lines of `s`: each ends at a newline, with an optional carriage return
/// before it, and the last line needs none.
pub open spec fn lines_of(s: Seq<char>) -> Seq<Seq<char>> {
    let end = line_cut(s);
    if end.open.len() == 0 {
        end.lines
    } else {
        end.lines.push(end.open)
    }
}

/// The lines of `s`.
pub fn split_lines(s: &str) -> (r: Vec<String>)
    ensures
        views(r@) == lines_of(s@),
{
    let cs = chars_of(s);
    let n: usize = cs.len();
    let mut out: Vec<String> = Vec::new();
    let mut open: Vec<char> = Vec::new();
    assert(views(out@) =~= Seq::empty());
    for i in 0..n
        invariant
            n == cs.len(),
            cs@ == s@,
            views(out@) == line_cut(s@.take(i as int)).lines,
            open@ == line_cut(s@.take(i as int)).open,
    {
        proof { assert(s@.take(i + 1).drop_last() =~= s@.take(i as int)); }
        if cs[i] == '\n' {
            let m: usize = open.len();
            let end: usize = if m > 0 && open[m - 1] == '\r' {
                m - 1
            } else {
                m
            };
            let line = string_between(&open, 0, end);
            proof { assert(line@ =~= without_cr(open@)); }
            let ghost pre = out@;
            out.push(line);
            proof { assert(views(out@) =~= views(pre).push(line@)); }
            open = Vec::new();
        } else {
            open.push(cs[i]);
        }
    }
    proof { assert(s@.take(n as int) =~= s@); }
    if open.len() > 0 {
        let ghost pre = out@;
        out.push(string_of(&open));
        proof { assert(views(out@) =~= views(pre).push(out@.last()@)); }
    }
    out
}

/// The words that whitespace has ended, and the word still open.
#[verifier::ext_equal]
pub struct WordCut {
    pub words: Seq<Seq<char>>,
    pub open: Seq<char>,
}

/// The words of `s` that whitespace ends, and the rest.
pub open spec fn word_cut(s: Seq<char>) -> WordCut
    decreases s.len(),
{
    if s.len() == 0 {
        WordCut { words: Seq::empty(), open: Seq::empty() }
    } else {
        let before = word_cut(s.drop_last());
        if !whitespace(s.last()) {
            WordCut { words: before.words, open: before.open.push(s.last()) }
        } else if before.open.len() == 0 {
            before
        } else {
            WordCut { words: before.words.push(before.open), open: Seq::empty() }
        }
    }
}

/// The words of `s`: its longest runs without whitespace.
pub open spec fn words_of(s: Seq<char>) -> Seq<Seq<char>> {
    let end = word_cut(s);
    if end.open.len() == 0 {
        end.words
    } else {
        end.words.push(end.open)
    }
}

/// The words of `s`.
pub fn split_words(s: &str) -> (r: Vec<String>)
    ensures
        views(r@) == words_of(s@),
{
    let cs = chars_of(s);
    let n: usize = cs.len();
    let mut out: Vec<String> = Vec::new();
    let mut open: Vec<char> = Vec::new();
    proof { assert(views(out@) =~= Seq::empty()); }
    for i in 0..n
        invariant
            n == cs.len(),
            cs@ == s@,
            views(out@) == word_cut(s@.take(i as int)).words,
            open@ == word_cut(s@.take(i as int)).open,
    {
        proof { assert(s@.take(i + 1).drop_last() =~= s@.take(i as int)); }
        if !is_whitespace(cs[i]) {
            open.push(cs[i]);
        } else if open.len() > 0 {
            let ghost pre = out@;
            out.push(string_of(&open));
            proof { assert(views(out@) =~= views(pre).push(out@.last()@)); }
            open = Vec::new();
        }
    }
    proof { assert(s@.take(n as int) =~= s@); }
    if open.len() > 0 {
        let ghost pre = out@;
        out.push(string_of(&open));
        proof { assert(views(out@) =~= views(pre).push(out@.last()@)); }
    }
    out
}

/// `p` stands in `s` at a place.
pub open spec fn stands_at(s: Seq<char>, p: Seq<char>, at: int) -> bool {
    0 <= at && at + p.len() <= s.len() && s.subrange(at, at + p.len()) == p
}

/// `p` stands somewhere in `s`.
pub open spec fn holds_text(s: Seq<char>, p: Seq<char>) -> bool {
    exists|at: int| stands_at(s, p, at)
}

/// Whether `p` stands somewhere in `s`.
pub fn contains_text(s: &str, p: &str) -> (r: bool)
    ensures
        r == holds_text(s@, p@),
{
    let a = chars_of(s);
    let b = chars_of(p);
    if b.len() > a.len() {
        return false;
    }
    let last: usize = a.len() - b.len();
    let mut at: usize = 0;
    while at <= last
        invariant
            a@ == s@,
            b@ == p@,
            last == a.len() - b.len(),
            b.len() <= a.len(),
            at <= last + 1,
            forall|k: int| 0 <= k < at ==> !stands_at(s@, p@, k),
        decreases last + 1 - at,
    {
        let mut j: usize = 0;
        while j < b.len() && a[at + j] == b[j]
            invariant
                a@ == s@,
                b@ == p@,
                at + b.len() <= a.len(),
                j <= b.len(),
                forall|k: int| 0 <= k < j ==> s@[at + k] == p@[k],
            decreases b.len() - j,
        {
            j = j + 1;
        }
        if j == b.len() {
            proof {
                assert(s@.subrange(at as int, at + p@.len()) =~= p@);
                assert(stands_at(s@, p@, at as int));
            }
            return true;
        }
        proof {
            if stands_at(s@, p@, at as int) {
                assert(s@.subrange(at as int, at + p@.len())[j as int] == p@[j as int]);
            }
        }
        if at == last {
            proof { assert(forall|k: int| !stands_at(s@, p@, k)); }
            return false;
        }
        at = at + 1;
    }
    false
}

/// The views of a sequence's elements.
pub open spec fn views<T: View>(s: Seq<T>) -> Seq<T::V> {
    s.map_values(|t: T| t.view())
}

/// The concatenation of `parts`.
pub open spec fn concat_all(parts: Seq<Seq<char>>) -> Seq<char>
    decreases parts.len(),
{
    if parts.len() == 0 {
        Seq::empty()
    } else {
        concat_all(parts.drop_last()) + parts.last()
    }
}

/// One more part goes to the end.
pub proof fn lemma_concat_push(parts: Seq<Seq<char>>, p: Seq<char>)
    ensures
        concat_all(parts.push(p)) == concat_all(parts) + p,
{
    assert(parts.push(p).drop_last() =~= parts);
}

/// `s` without its leading whitespace.
pub open spec fn trimmed_start(s: Seq<char>) -> Seq<char>
    decreases s.len(),
{
    if s.len() > 0 && whitespace(s[0]) {
        trimmed_start(s.drop_first())
    } else {
        s
    }
}

/// `s` without its trailing whitespace.
pub open spec fn trimmed_end(s: Seq<char>) -> Seq<char>
    decreases s.len(),
{
    if s.len() > 0 && whitespace(s.last()) {
        trimmed_end(s.drop_last())
    } else {
        s
    }
}

/// `s` without whitespace around it.
pub open spec fn trimmed(s: Seq<char>) -> Seq<char> {
    trimmed_end(trimmed_start(s))
}

proof fn lemma_start_at(s: Seq<char>, a: int)
    requires
        0 <= a <= s.len(),
        forall|i: int| 0 <= i < a ==> whitespace(#[trigger] s[i]),
        a < s.len() ==> !whitespace(s[a]),
    ensures
        trimmed_start(s) == s.skip(a),
    decreases s.len(),
{
    if a > 0 {
        let rest = s.drop_first();
        assert forall|i: int| 0 <= i < a - 1 implies whitespace(#[trigger] rest[i]) by {
            assert(rest[i] == s[i + 1]);
        }
        lemma_start_at(rest, a - 1);
        assert(rest.skip(a - 1) =~= s.skip(a));
        assert(whitespace(s[0]));
    } else {
        assert(s.skip(0) =~= s);
    }
}

proof fn lemma_end_at(s: Seq<char>, b: int)
    requires
        0 <= b <= s.len(),
        forall|i: int| b <= i < s.len() ==> whitespace(#[trigger] s[i]),
        b > 0 ==> !whitespace(s[b - 1]),
    ensures
        trimmed_end(s) == s.take(b),
    decreases s.len(),
{
    if b < s.len() {
        let rest = s.drop_last();
        assert forall|i: int| b <= i < rest.len() implies whitespace(#[trigger] rest[i]) by {
            assert(rest[i] == s[i]);
        }
        lemma_end_at(rest, b);
        assert(rest.take(b) =~= s.take(b));
        assert(whitespace(s[s.len() - 1]));
    } else {
        assert(s.take(b) =~= s);
    }
}

/// Where the text starts behind its leading whitespace.
proof fn lemma_start(s: Seq<char>) -> (a: int)
    ensures
        0 <= a <= s.len(),
        forall|i: int| 0 <= i < a ==> whitespace(#[trigger] s[i]),
        a < s.len() ==> !whitespace(s[a]),
    decreases s.len(),
{
    if s.len() > 0 && whitespace(s[0]) {
        let rest = s.drop_first();
        let a = lemma_start(rest);
        assert forall|i: int| 0 <= i < a + 1 implies whitespace(#[trigger] s[i]) by {
            if i > 0 {
                assert(s[i] == rest[i - 1]);
            }
        }
        if a < rest.len() {
            assert(rest[a] == s[a + 1]);
        }
        a + 1
    } else {
        0
    }
}

/// Where the text ends before its trailing whitespace.
proof fn lemma_end(s: Seq<char>) -> (b: int)
    ensures
        0 <= b <= s.len(),
        forall|i: int| b <= i < s.len() ==> whitespace(#[trigger] s[i]),
        b > 0 ==> !whitespace(s[b - 1]),
    decreases s.len(),
{
    if s.len() > 0 && whitespace(s.last()) {
        let rest = s.drop_last();
        let b = lemma_end(rest);
        assert forall|i: int| b <= i < s.len() implies whitespace(#[trigger] s[i]) by {
            if i < rest.len() {
                assert(s[i] == rest[i]);
            }
        }
        b
    } else {
        s.len() as int
    }
}

/// Trimming both ends is the same in either order, and trimming again changes
/// nothing.
pub proof fn lemma_trimmed(s: Seq<char>)
    ensures
        trimmed(trimmed(s)) == trimmed(s),
        trimmed(trimmed_end(s)) == trimmed(s),
{
    let a = lemma_start(s);
    let b = lemma_end(s);
    lemma_start_at(s, a);
    lemma_end_at(s, b);
    let front = s.take(b);
    let back = s.skip(a);
    if a >= b {
        assert(a == s.len() && b == 0) by {
            if a < s.len() {
                assert(whitespace(s[a]));
            }
            if b > 0 {
                assert(whitespace(s[b - 1]));
            }
        }
        assert(front =~= Seq::empty());
        assert(back =~= Seq::empty());
    } else {
        let body = s.subrange(a, b);
        assert forall|i: int| 0 <= i < a implies whitespace(#[trigger] front[i]) by {
            assert(front[i] == s[i]);
        }
        lemma_start_at(front, a);
        assert(front.skip(a) =~= body);
        assert forall|i: int| b - a <= i < back.len() implies whitespace(#[trigger] back[i]) by {
            assert(back[i] == s[i + a]);
        }
        lemma_end_at(back, b - a);
        assert(back.take(b - a) =~= body);
        assert(body[0] == s[a] && body[body.len() - 1] == s[b - 1]);
        lemma_start_at(body, 0);
        lemma_end_at(body, body.len() as int);
        assert(body.skip(0) =~= body);
        assert(body.take(body.len() as int) =~= body);
    }
}

/// A character that is not whitespace stays where what follows it is trimmed.
pub proof fn lemma_trimmed_behind(c: char, s: Seq<char>)
    requires
        !whitespace(c),
    ensures
        trimmed(seq![c] + s) == seq![c] + trimmed_end(s),
{
    let t = seq![c] + s;
    let b = lemma_end(s);
    lemma_end_at(s, b);
    lemma_start_at(t, 0);
    assert(t.skip(0) =~= t);
    assert forall|i: int| b + 1 <= i < t.len() implies whitespace(#[trigger] t[i]) by {
        assert(t[i] == s[i - 1]);
    }
    if b > 0 {
        assert(t[b] == s[b - 1]);
    }
    lemma_end_at(t, b + 1);
    assert(t.take(b + 1) =~= seq![c] + s.take(b));
}

/// `s` without whitespace around it.
pub fn trim(s: &str) -> (r: String)
    ensures
        r@ == trimmed(s@),
{
    let cs = chars_of(s);
    let n: usize = cs.len();
    let mut from: usize = 0;
    proof { assert(s@.skip(0) =~= s@); }
    while from < n && is_whitespace(cs[from])
        invariant
            n == cs.len(),
            cs@ == s@,
            from <= n,
            trimmed_start(s@) == trimmed_start(s@.skip(from as int)),
        decreases n - from,
    {
        proof { assert(s@.skip(from as int).drop_first() =~= s@.skip(from + 1)); }
        from = from + 1;
    }
    let ghost body = s@.skip(from as int);
    let mut to: usize = n;
    proof { assert(s@.subrange(from as int, n as int) =~= body); }
    while to > from && is_whitespace(cs[to - 1])
        invariant
            n == cs.len(),
            cs@ == s@,
            from <= to <= n,
            trimmed_end(body) == trimmed_end(s@.subrange(from as int, to as int)),
        decreases to - from,
    {
        proof {
            assert(s@.subrange(from as int, to as int).drop_last() =~= s@.subrange(
                from as int,
                to - 1,
            ));
        }
        to = to - 1;
    }
    string_between(&cs, from, to)
}

/// An ASCII uppercase letter as its lowercase letter, any other character as
/// it is.
pub open spec fn ascii_lower(c: char) -> char {
    if 'A' <= c && c <= 'Z' {
        ((c as u8) + 32) as u8 as char
    } else {
        c
    }
}

/// A string with its ASCII uppercase letters lowered.
pub open spec fn ascii_lowered(s: Seq<char>) -> Seq<char> {
    s.map_values(|c: char| ascii_lower(c))
}

/// A string with its ASCII uppercase letters lowered.
pub fn to_ascii_lowercase(s: &str) -> (r: String)
    ensures
        r@ == ascii_lowered(s@),
{
    let cs = chars_of(s);
    let n: usize = cs.len();
    let mut out = String::new();
    for i in 0..n
        invariant
            n == cs.len(),
            cs@ == s@,
            out@ == ascii_lowered(s@).take(i as int),
    {
        let c = cs[i];
        let d = if 'A' <= c && c <= 'Z' {
            ((c as u8) + 32) as char
        } else {
            c
        };
        out.push(d);
        proof {
            let all = ascii_lowered(s@);
            assert(all.take(i + 1) =~= all.take(i as int).push(all[i as int]));
        }
    }
    proof { assert(ascii_lowered(s@).take(n as int) =~= ascii_lowered(s@)); }
    out
}

/// `s` with every `from` made `to`.
pub open spec fn swapped(s: Seq<char>, from: char, to: char) -> Seq<char> {
    s.map_values(
        |c: char|
            if c == from {
                to
            } else {
                c
            },
    )
}

/// `s` with every `from` made `to`.
pub fn swap_char(s: &str, from: char, to: char) -> (r: String)
    ensures
        r@ == swapped(s@, from, to),
{
    let cs = chars_of(s);
    let n: usize = cs.len();
    let mut out = String::new();
    for i in 0..n
        invariant
            n == cs.len(),
            cs@ == s@,
            out@ == swapped(s@, from, to).take(i as int),
    {
        out.push(
            if cs[i] == from {
                to
            } else {
                cs[i]
            },
        );
        proof {
            let all = swapped(s@, from, to);
            assert(all.take(i + 1) =~= all.take(i as int).push(all[i as int]));
        }
    }
    proof { assert(swapped(s@, from, to).take(n as int) =~= swapped(s@, from, to)); }
    out
}

/// `a` comes no later than `b` in the order of code points.
pub open spec fn lex_le(a: Seq<char>, b: Seq<char>) -> bool
    decreases a.len(),
{
    if a.len() == 0 {
        true
    } else if b.len() == 0 {
        false
    } else if a[0] == b[0] {
        lex_le(a.drop_first(), b.drop_first())
    } else {
        a[0] < b[0]
    }
}

/// Whether `a` comes no later than `b` in the order of code points.
pub fn str_le(a: &str, b: &str) -> (r: bool)
    ensures
        r == lex_le(a@, b@),
{
    let x = chars_of(a);
    let y = chars_of(b);
    let mut i: usize = 0;
    proof {
        assert(a@.skip(0) =~= a@);
        assert(b@.skip(0) =~= b@);
    }
    while i < x.len() && i < y.len()
        invariant
            x@ == a@,
            y@ == b@,
            i <= x.len(),
            i <= y.len(),
            lex_le(a@, b@) == lex_le(a@.skip(i as int), b@.skip(i as int)),
        decreases x.len() - i,
    {
        proof {
            assert(a@.skip(i as int).drop_first() =~= a@.skip(i + 1));
            assert(b@.skip(i as int).drop_first() =~= b@.skip(i + 1));
        }
        if x[i] != y[i] {
            return x[i] < y[i];
        }
        i = i + 1;
    }
    i >= x.len()
}

/// One text comes no later than the other.
pub proof fn lemma_lex_total(a: Seq<char>, b: Seq<char>)
    ensures
        lex_le(a, b) || lex_le(b, a),
    decreases a.len(),
{
    if a.len() > 0 && b.len() > 0 && a[0] == b[0] {
        lemma_lex_total(a.drop_first(), b.drop_first());
    }
}

/// The order of texts is transitive.
pub proof fn lemma_lex_trans(a: Seq<char>, b: Seq<char>, c: Seq<char>)
    requires
        lex_le(a, b),
        lex_le(b, c),
    ensures
        lex_le(a, c),
    decreases a.len(),
{
    if a.len() > 0 && b.len() > 0 && c.len() > 0 && a[0] == b[0] && b[0] == c[0] {
        lemma_lex_trans(a.drop_first(), b.drop_first(), c.drop_first());
    }
}

/// A text put into a sorted list, after those that come no later.
pub open spec fn insert_sorted(list: Seq<Seq<char>>, t: Seq<char>) -> Seq<Seq<char>>
    decreases list.len(),
{
    if list.len() == 0 || lex_le(list.last(), t) {
        list.push(t)
    } else {
        insert_sorted(list.drop_last(), t).push(list.last())
    }
}

/// Texts in the order of code points.
pub open spec fn sorted_texts(list: Seq<Seq<char>>) -> Seq<Seq<char>>
    decreases list.len(),
{
    if list.len() == 0 {
        Seq::empty()
    } else {
        insert_sorted(sorted_texts(list.drop_last()), list.last())
    }
}

/// Puts a text into a sorted list.
pub fn insert_text(list: &mut Vec<String>, t: String)
    ensures
        views(final(list)@) == insert_sorted(views(old(list)@), t@),
{
    let ghost before = list@;
    let ghost all = views(before);
    let mut i: usize = list.len();
    let ghost mut tail: Seq<Seq<char>> = Seq::empty();
    proof {
        assert(all.take(i as int) =~= all);
        assert(insert_sorted(all, t@) + tail =~= insert_sorted(all, t@));
        assert(tail =~= all.skip(i as int));
    }
    while i > 0 && !str_le(list[i - 1].as_str(), t.as_str())
        invariant
            list@ == before,
            all == views(before),
            i <= list.len(),
            tail == all.skip(i as int),
            insert_sorted(all, t@) == insert_sorted(all.take(i as int), t@) + tail,
        decreases i,
    {
        proof {
            let head = all.take(i as int);
            assert(head.drop_last() =~= all.take(i - 1));
            assert(head.last() == all[i - 1]);
            let inner = insert_sorted(all.take(i - 1), t@);
            assert(inner.push(all[i - 1]) + tail =~= inner + (seq![all[i - 1]] + tail));
            tail = seq![all[i - 1]] + tail;
            assert(tail =~= all.skip(i - 1));
        }
        i = i - 1;
    }
    list.insert(i, t);
    proof {
        let head = all.take(i as int);
        assert(insert_sorted(head, t@) =~= head.push(t@));
        assert(views(list@) =~= head.push(t@) + tail);
    }
}

/// `parts` with `gap` between each two.
pub open spec fn joined_with(parts: Seq<Seq<char>>, gap: Seq<char>) -> Seq<char>
    decreases parts.len(),
{
    if parts.len() == 0 {
        Seq::empty()
    } else if parts.len() == 1 {
        parts[0]
    } else {
        joined_with(parts.drop_last(), gap) + gap + parts.last()
    }
}

/// Joins `parts` with `gap` between each two.
pub fn join_with(parts: &Vec<String>, gap: &str) -> (r: String)
    ensures
        r@ == joined_with(views(parts@), gap@),
{
    let mut out = String::new();
    let n: usize = parts.len();
    let ghost all = views(parts@);
    for i in 0..n
        invariant
            n == parts.len(),
            all == views(parts@),
            out@ == joined_with(all.take(i as int), gap@),
    {
        proof { assert(all.take(i + 1).drop_last() =~= all.take(i as int)); }
        if i > 0 {
            out.push_str(gap);
        }
        out.push_str(parts[i].as_str());
        proof {
            if i == 0 {
                assert(out@ =~= all[0]);
            }
        }
    }
    proof { assert(all.take(n as int) =~= all); }
    out
}

} // verus!
