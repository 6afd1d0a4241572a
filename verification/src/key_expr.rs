//! Key expressions, as Zenoh formats, strips and matches them.
use crate::text::texts_of;
use vstd::prelude::*;
use zenoh::key_expr::format::KeFormat;
use zenoh::key_expr::keyexpr;

verus! {

/// A key expression without wildcards: chunks separated by single slashes,
/// free of the characters that key expressions give a meaning to.
pub open spec fn literal(s: Seq<char>) -> bool {
    &&& s.len() > 0
    &&& s[0] != '/'
    &&& s.last() != '/'
    &&& forall|i: int| 0 <= i < s.len() - 1 ==> !(#[trigger] s[i] == '/' && s[i + 1] == '/')
    &&& forall|i: int|
        0 <= i < s.len() ==> #[trigger] s[i] != '*' && s[i] != '$' && s[i] != '#' && s[i] != '?'
}

/// A literal key expression of ordinary length without verbatim chunks.
pub open spec fn plain(s: Seq<char>) -> bool {
    literal(s) && !s.contains('@') && s.len() <= 0xffff
}

/// `value` below `prefix`.
pub open spec fn key_text(prefix: Seq<char>, value: Seq<char>) -> Seq<char> {
    if value.len() == 0 {
        prefix
    } else {
        prefix + seq!['/'] + value
    }
}

/// What is left of `key` below `prefix`, in at most one way.
pub open spec fn rests_below(key: Seq<char>, prefix: Seq<char>) -> Seq<Seq<char>> {
    if (prefix + seq!['/']).is_prefix_of(key) {
        seq![key.skip(prefix.len() as int + 1)]
    } else {
        Seq::empty()
    }
}

/// The text of a string that may be missing.
pub open spec fn text_in(s: Option<String>) -> Option<Seq<char>> {
    match s {
        Some(s) => Some(s@),
        None => None,
    }
}

/// The texts of strings that may be missing.
pub open spec fn texts_in(v: Option<Vec<String>>) -> Option<Seq<Seq<char>>> {
    match v {
        Some(v) => Some(texts_of(v@)),
        None => None,
    }
}

/// Whether a field with the pattern `**` of a key expression format takes
/// `value`.
pub uninterp spec fn field_fits(value: Seq<char>) -> bool;

/// The ways to read `key` below `prefix`, if both are key expressions.
pub uninterp spec fn prefix_stripped(key: Seq<char>, prefix: Seq<char>) -> Option<Seq<Seq<char>>>;

/// Whether some key is in both of two sets of keys, if both texts are key
/// expressions.
pub uninterp spec fn keys_intersect(a: Seq<char>, b: Seq<char>) -> Option<bool>;

/// The canonical form of `a`, a slash and `b`, if both are key expressions and
/// there is such a form.
pub uninterp spec fn keys_joined(a: Seq<char>, b: Seq<char>) -> Option<Seq<char>>;

/// `KeFormat::new` on `prefix/${value:**}`, then `KeFormatter::set` and
/// `KeFormatter::build`: the key with `value` below `prefix`, where the field
/// takes `value`. It takes the empty text, which leaves no slash behind, and
/// any plain one.
#[verifier::external_body]
pub(crate) fn format_key(prefix: &str, value: &str) -> (r: Option<String>)
    requires
        plain(prefix@),
    ensures
        r is Some == field_fits(value@),
        r matches Some(key) ==> key@ == key_text(prefix@, value@),
        value@.len() == 0 || plain(value@) ==> r is Some,
{
    let text = format!("{prefix}/${{value:**}}");
    let format = KeFormat::new(&text).ok()?;
    let mut formatter = format.formatter();
    formatter.set("value", value).ok()?;
    formatter.build().ok().map(|key| key.as_str().to_string())
}

/// `keyexpr::strip_prefix`: nothing where one of the two texts is no key
/// expression. Without wildcards there is one way to read a key below a prefix
/// that it starts with, and none below another. All that is below a prefix
/// without wildcards is read as `**`.
#[verifier::external_body]
pub(crate) fn strip_prefix(key: &str, prefix: &str) -> (r: Option<Vec<String>>)
    ensures
        texts_in(r) == prefix_stripped(key@, prefix@),
        literal(key@) && literal(prefix@) ==> texts_in(r) == Some(rests_below(key@, prefix@)),
        literal(prefix@) && key@ == key_text(prefix@, "**"@) ==> texts_in(r) == Some(seq!["**"@]),
{
    let key = keyexpr::new(key).ok()?;
    let prefix = keyexpr::new(prefix).ok()?;
    Some(key.strip_prefix(prefix).iter().map(|k| k.as_str().to_string()).collect())
}

/// `keyexpr::intersects`: nothing where one of the two texts is no key
/// expression. Every plain key is met by `**`.
#[verifier::external_body]
pub(crate) fn intersects(a: &str, b: &str) -> (r: Option<bool>)
    ensures
        r == keys_intersect(a@, b@),
        a@ == "**"@ && plain(b@) ==> r == Some(true),
{
    let a = keyexpr::new(a).ok()?;
    let b = keyexpr::new(b).ok()?;
    Some(a.intersects(b))
}

/// `keyexpr::join`: nothing where one of the two texts is no key expression, or
/// where nothing canonical can be made of them. Of literal texts it makes `a`, a
/// slash and `b`.
#[verifier::external_body]
pub(crate) fn join(a: &str, b: &str) -> (r: Option<String>)
    ensures
        text_in(r) == keys_joined(a@, b@),
        literal(a@) && literal(b@) ==> text_in(r) == Some(key_text(a@, b@)),
{
    let a = keyexpr::new(a).ok()?;
    let b = keyexpr::new(b).ok()?;
    a.join(b).ok().map(|key| key.as_str().to_string())
}

/// Whether `key` holds a wildcard.
pub fn is_wild(key: &str) -> (r: bool)
    ensures
        r == key@.contains('*'),
{
    crate::text::contains_char(key, '*')
}

} // verus!
