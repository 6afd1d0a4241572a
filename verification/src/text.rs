//! Operations on strings, specified over their sequences of characters.
use vstd::prelude::*;

verus! {

/// Whether `part` occurs in `whole` at position `i`.
pub open spec fn occurs_at(whole: Seq<char>, part: Seq<char>, i: int) -> bool {
    0 <= i && i + part.len() <= whole.len() && whole.subrange(i, i + part.len()) == part
}

/// Whether `part` occurs somewhere in `whole`.
pub open spec fn has_part(whole: Seq<char>, part: Seq<char>) -> bool {
    exists|i: int| occurs_at(whole, part, i)
}

/// The texts of the strings, in order.
pub open spec fn texts_of(strings: Seq<String>) -> Seq<Seq<char>> {
    strings.map_values(|s: String| s@)
}

/// The characters of `s`.
pub fn chars_of(s: &str) -> (v: Vec<char>)
    ensures
        v@ == s@,
{
    let mut v: Vec<char> = Vec::new();
    for c in it: s.chars()
        invariant
            it.seq() == s@,
            v@ == s@.take(it.index() as int),
    {
        v.push(c);
    }
    v
}

/// Compares `part` with the characters of `whole` from position `at` on.
fn matches_at(whole: &Vec<char>, part: &Vec<char>, at: usize) -> (r: bool)
    requires
        at + part@.len() <= whole@.len(),
    ensures
        r == occurs_at(whole@, part@, at as int),
{
    let n: usize = part.len();
    for i in 0..n
        invariant
            n == part@.len(),
            at + n <= whole@.len(),
            whole@.len() == whole.len(),
            forall|j: int| 0 <= j < i ==> whole@[at + j] == part@[j],
    {
        if whole[at + i] != part[i] {
            assert(whole@.subrange(at as int, at + n)[i as int] != part@[i as int]);
            return false;
        }
    }
    assert(whole@.subrange(at as int, at + n) =~= part@);
    true
}

/// Whether `s` begins with `prefix`.
pub fn starts_with(s: &str, prefix: &str) -> (r: bool)
    ensures
        r == prefix@.is_prefix_of(s@),
{
    let whole = chars_of(s);
    let part = chars_of(prefix);
    if part.len() > whole.len() {
        return false;
    }
    matches_at(&whole, &part, 0)
}

/// Whether `s` ends with `suffix`.
pub fn ends_with(s: &str, suffix: &str) -> (r: bool)
    ensures
        r == suffix@.is_suffix_of(s@),
{
    let whole = chars_of(s);
    let part = chars_of(suffix);
    if part.len() > whole.len() {
        return false;
    }
    matches_at(&whole, &part, whole.len() - part.len())
}

/// Whether `part` occurs somewhere in `s`.
pub fn contains(s: &str, part: &str) -> (r: bool)
    ensures
        r == has_part(s@, part@),
{
    let whole = chars_of(s);
    let wanted = chars_of(part);
    if wanted.len() > whole.len() {
        return false;
    }
    let end: usize = whole.len() - wanted.len();
    for i in 0..end
        invariant
            end == whole@.len() - wanted@.len(),
            whole@ == s@,
            wanted@ == part@,
            forall|j: int| 0 <= j < i ==> !occurs_at(s@, part@, j),
    {
        if matches_at(&whole, &wanted, i) {
            return true;
        }
    }
    matches_at(&whole, &wanted, end)
}

/// Whether the character `c` occurs in `s`.
pub fn contains_char(s: &str, c: char) -> (r: bool)
    ensures
        r == s@.contains(c),
{
    for d in it: s.chars()
        invariant
            it.seq() == s@,
            forall|j: int| 0 <= j < it.index() ==> s@[j] != c,
    {
        if d == c {
            return true;
        }
    }
    false
}

/// Whether the two strings hold the same characters.
pub fn same_text(a: &str, b: &str) -> (r: bool)
    ensures
        r == (a@ == b@),
{
    let a = chars_of(a);
    let b = chars_of(b);
    if a.len() != b.len() {
        return false;
    }
    let r = matches_at(&a, &b, 0);
    assert(a@.subrange(0, b@.len() as int) =~= a@);
    r
}

/// The string that holds the characters of `v`.
pub fn string_of(v: &Vec<char>) -> (s: String)
    ensures
        s@ == v@,
{
    let mut s: String = String::new();
    for i in 0..v.len()
        invariant
            s@ == v@.take(i as int),
    {
        push_char(&mut s, v[i]);
        assert(v@.take(i + 1) =~= v@.take(i as int).push(v@[i as int]));
    }
    assert(v@.take(v@.len() as int) =~= v@);
    s
}

/// `String::push`: the character becomes the last one of the string.
#[verifier::external_body]
pub(crate) fn push_char(s: &mut String, c: char)
    ensures
        final(s)@ == old(s)@.push(c),
{
    s.push(c)
}

/// `a` followed by `b`.
pub fn join2(a: &str, b: &str) -> (r: String)
    ensures
        r@ == a@ + b@,
{
    let mut r: String = a.to_owned();
    r.append(b);
    r
}

/// `a`, `b` and `c`, one after the other.
pub fn join3(a: &str, b: &str, c: &str) -> (r: String)
    ensures
        r@ == a@ + b@ + c@,
{
    let mut r: String = a.to_owned();
    r.append(b);
    r.append(c);
    r
}

/// The first `n` texts with commas between them.
pub open spec fn listed(texts: Seq<Seq<char>>, n: nat) -> Seq<char>
    decreases n,
{
    if n == 0 {
        Seq::empty()
    } else if n == 1 {
        texts[0]
    } else {
        listed(texts, (n - 1) as nat) + ", "@ + texts[n - 1]
    }
}

/// The texts between brackets, with commas between them.
pub open spec fn list_text(texts: Seq<Seq<char>>) -> Seq<char> {
    "["@ + listed(texts, texts.len()) + "]"@
}

/// The texts between braces, with commas between them.
pub open spec fn braced_text(texts: Seq<Seq<char>>) -> Seq<char> {
    "{"@ + listed(texts, texts.len()) + "}"@
}

fn commas_between(items: &Vec<String>) -> (r: String)
    ensures
        r@ == listed(texts_of(items@), items@.len()),
{
    let ghost texts = texts_of(items@);
    let mut inner: String = String::new();
    for i in 0..items.len()
        invariant
            texts == texts_of(items@),
            inner@ == listed(texts, i as nat),
    {
        assert(texts[i as int] == items@[i as int]@);
        if i > 0 {
            inner.append(", ");
        } else {
            assert(Seq::<char>::empty() + texts[0] =~= texts[0]);
        }
        inner.append(&items[i]);
    }
    inner
}

/// The texts between brackets, with commas between them.
pub fn list_of(items: &Vec<String>) -> (r: String)
    ensures
        r@ == list_text(texts_of(items@)),
{
    join3("[", &commas_between(items), "]")
}

/// The texts between braces, with commas between them.
pub fn braced_of(items: &Vec<String>) -> (r: String)
    ensures
        r@ == braced_text(texts_of(items@)),
{
    join3("{", &commas_between(items), "}")
}

/// Whether the text is made of letters and digits of ASCII, underscores and
/// slashes.
pub open spec fn is_word(text: Seq<char>) -> bool {
    forall|i: int|
        0 <= i < text.len() ==> {
            let c = #[trigger] text[i];
            'a' <= c <= 'z' || 'A' <= c <= 'Z' || '0' <= c <= '9' || c == '_' || c == '/'
        }
}

/// The text in double quotes, with escapes in it, as `Debug` of `str` writes it.
pub uninterp spec fn quoted(text: Seq<char>) -> Seq<char>;

/// `format!` with `Debug` of `str`: the text in double quotes. What it escapes is
/// not stated, only that nothing of a word is escaped.
#[verifier::external_body]
pub(crate) fn quote(text: &str) -> (r: String)
    ensures
        r@ == quoted(text@),
        is_word(text@) ==> r@ == "\""@ + text@ + "\""@,
{
    format!("{text:?}")
}

} // verus!
