//! Finding include directives in a document's text, and reading the path
//! argument of an invocation.

use vstd::prelude::*;

verus! {

/// The regular expression of an include directive: the word, one or more
/// whitespace characters, and a path in double quotes, held by the first group.
pub const DIRECTIVE: &'static str = "#include\\s+\"(?P<file>.*)\"";

/// The text of `DIRECTIVE`.
pub open spec fn directive() -> Seq<char> {
    DIRECTIVE@
}

/// What the regular-expression engine finds for `pattern` in `text`: the text
/// before its leftmost-first match, the text of its first group, and the text
/// after the match. `None` where nothing matches, where `pattern` is not a
/// valid expression, or where the first group takes no part in the match.
pub uninterp spec fn first_capture(pattern: Seq<char>, text: Seq<char>) -> Option<(Seq<char>, Seq<char>, Seq<char>)>;

/// Relies on `regex::Regex::new` and `regex::Regex::captures`: the match and
/// its first group are pieces of `text`, found by the engine alone.
#[verifier::external_body]
fn captures_first(pattern: &str, text: &str) -> (r: Option<(String, String, String)>)
    ensures
        r is None <==> first_capture(pattern@, text@) is None,
        r matches Some((b, f, a)) ==> first_capture(pattern@, text@) == Some((b@, f@, a@)),
{
    let re = regex::Regex::new(pattern).ok()?;
    let caps = re.captures(text)?;
    let whole = caps.get(0)?;
    let file = caps.get(1)?;
    Some((text[..whole.start()].to_string(), file.as_str().to_string(), text[whole.end()..].to_string()))
}

/// The first include directive of `text`, as the text before it, its path,
/// and the text after it.
pub fn find_directive(text: &str) -> (r: Option<(String, String, String)>)
    ensures
        r is None <==> first_capture(directive(), text@) is None,
        r matches Some((b, f, a)) ==> first_capture(directive(), text@) == Some((b@, f@, a@)),
{
    captures_first(DIRECTIVE, text)
}

/// The value of a string literal as written in source, `"..."`: what stands
/// between the opening and the closing quote. A lone quote counts as both.
pub open spec fn unquoted(t: Seq<char>) -> Option<Seq<char>> {
    if t.len() >= 1 && t[0] == '"' && t[t.len() - 1] == '"' {
        if t.len() >= 2 {
            Some(t.subrange(1, t.len() - 1))
        } else {
            Some(Seq::empty())
        }
    } else {
        None
    }
}

/// Returns what the literal `token` holds between its quotes, or `None` when
/// it is not a double-quoted string literal.
pub fn literal_value(token: &str) -> (r: Option<String>)
    ensures
        r is None <==> unquoted(token@) is None,
        r matches Some(v) ==> unquoted(token@) == Some(v@),
{
    let n = token.unicode_len();
    if n == 0 || token.get_char(0) != '"' || token.get_char(n - 1) != '"' {
        return None;
    }
    if n == 1 {
        return Some(String::new());
    }
    Some(String::from_str(token.substring_char(1, n - 1)))
}

} // verus!
