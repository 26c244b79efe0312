//! File paths with variables: `$(NAME)` stands for the value of `NAME`.
//!
//! The variables come as a list of names and values, taken once by the
//! caller. Each in turn replaces every occurrence of its pattern. A path
//! that after all of them still reads `$(` .. `)` names a variable that is
//! not set, and the area that carries it gets no file.

use vstd::prelude::*;
use vstd::string::*;
use crate::area::Area;
use crate::extract::{has_prefix, starts_with};

verus! {

/// One variable of the environment.
#[derive(Debug, Clone)]
pub struct EnvVar {
    pub name: String,
    pub value: String,
}

/// The text that stands for the variable `name` in a path.
pub open spec fn pattern_of(name: Seq<char>) -> Seq<char> {
    "$("@ + name + ")"@
}

/// `pattern` stands somewhere in `text`.
pub open spec fn occurs(text: Seq<char>, pattern: Seq<char>) -> bool {
    exists|i: int|
        0 <= i && i + pattern.len() <= text.len() && #[trigger] text.subrange(
            i,
            i + pattern.len(),
        ) == pattern
}

/// `text` with `with` in place of each match of `pattern`, for a pattern
/// that is not empty. Matches are taken from the left and do not overlap: a
/// text shorter than the pattern stays; a text that begins with the pattern
/// becomes `with`, followed by what is made of the text behind the match;
/// any other text keeps its first character, followed by what is made of
/// the rest. With an empty pattern, which no path variable has, this is the
/// text itself.
pub open spec fn replaced(text: Seq<char>, pattern: Seq<char>, with: Seq<char>) -> Seq<char>
    decreases text.len(),
{
    if pattern.len() == 0 || text.len() < pattern.len() {
        text
    } else if text.subrange(0, pattern.len() as int) == pattern {
        with + replaced(text.subrange(pattern.len() as int, text.len() as int), pattern, with)
    } else {
        text.subrange(0, 1) + replaced(text.subrange(1, text.len() as int), pattern, with)
    }
}

/// `path` after the first `n` variables of `env` have been put in, one
/// after the other.
pub open spec fn expanded(path: Seq<char>, env: Seq<EnvVar>, n: int) -> Seq<char>
    decreases n,
{
    if n <= 0 {
        path
    } else {
        replaced(expanded(path, env, n - 1), pattern_of(env[n - 1].name@), env[n - 1].value@)
    }
}

/// `path` has the form of a variable that was never put in: it begins
/// with `$(` and ends with `)`.
pub open spec fn is_placeholder(path: Seq<char>) -> bool {
    has_prefix(path, "$("@) && path.len() > 0 && path.last() == ')'
}

/// The path of the file that goes into an area, after the variables have
/// been put in: none where the area names no file, and none where the
/// path is still a placeholder.
pub open spec fn file_path_of(file: Option<Seq<char>>, env: Seq<EnvVar>) -> Option<Seq<char>> {
    match file {
        None => None,
        Some(path) => {
            let full = expanded(path, env, env.len() as int);
            if is_placeholder(full) {
                None
            } else {
                Some(full)
            }
        },
    }
}

/// Calls `str::replace` of the standard library. Taken on trust, not
/// proved: for a pattern that is not empty, the result is the text with
/// each match of the pattern replaced, the matches taken from the left and
/// not overlapping.
#[verifier::external_body]
fn replace_all(text: &str, pattern: &str, with: &str) -> (r: String)
    requires
        pattern@.len() > 0,
    ensures
        r@ == replaced(text@, pattern@, with@),
{
    text.replace(pattern, with)
}

/// Puts the variables of `env` into `path`, each in turn, in the order of
/// the list.
pub fn expand_path(path: &str, env: &Vec<EnvVar>) -> (r: String)
    ensures
        r@ == expanded(path@, env@, env.len() as int),
{
    let mut full = String::from_str(path);
    let mut i: usize = 0;
    while i < env.len()
        invariant
            i <= env.len(),
            full@ == expanded(path@, env@, i as int),
        decreases env.len() - i,
    {
        let pattern = String::from_str("$(").concat(env[i].name.as_str()).concat(")");
        proof {
            reveal_strlit("$(");
            assert(pattern@ =~= pattern_of(env[i as int].name@));
        }
        full = replace_all(full.as_str(), pattern.as_str(), env[i].value.as_str());
        i += 1;
    }
    full
}

/// Whether `path` still has the form `$(` .. `)`.
pub fn names_unset_variable(path: &str) -> (r: bool)
    ensures
        r == is_placeholder(path@),
{
    let n = path.unicode_len();
    starts_with(path, "$(") && n > 0 && path.get_char(n - 1) == ')'
}

/// The path of the file to embed in `area`, if there is one to embed.
pub fn file_path(area: &Area, env: &Vec<EnvVar>) -> (r: Option<String>)
    ensures
        match file_path_of(area@.file, env@) {
            Some(path) => r is Some && r->Some_0@ == path,
            None => r is None,
        },
{
    match &area.file {
        None => None,
        Some(path) => {
            let full = expand_path(path.as_str(), env);
            if names_unset_variable(full.as_str()) {
                None
            } else {
                Some(full)
            }
        },
    }
}

/// A text in which the pattern does not occur stays as it is.
pub proof fn lemma_replaced_without_match(text: Seq<char>, pattern: Seq<char>, with: Seq<char>)
    requires
        !occurs(text, pattern),
    ensures
        replaced(text, pattern, with) == text,
    decreases text.len(),
{
    if !(pattern.len() == 0 || text.len() < pattern.len()) {
        assert(text.subrange(0int, 0int + pattern.len()) != pattern);
        let rest = text.subrange(1, text.len() as int);
        assert forall|i: int| 0 <= i && i + pattern.len() <= rest.len() implies #[trigger]
            rest.subrange(i, i + pattern.len()) != pattern by {
            assert(rest.subrange(i, i + pattern.len()) =~= text.subrange(
                i + 1,
                i + 1 + pattern.len(),
            ));
        }
        lemma_replaced_without_match(rest, pattern, with);
        assert(text.subrange(0, 1) + rest =~= text);
    }
}

/// A path that is a variable followed by a text in which that variable
/// does not occur becomes the value of the variable followed by that text.
pub proof fn lemma_leading_variable(name: Seq<char>, value: Seq<char>, tail: Seq<char>)
    requires
        !occurs(tail, pattern_of(name)),
    ensures
        replaced(pattern_of(name) + tail, pattern_of(name), value) == value + tail,
{
    reveal_strlit("$(");
    let pattern = pattern_of(name);
    let text = pattern + tail;
    assert(text.subrange(0, pattern.len() as int) =~= pattern);
    assert(text.subrange(pattern.len() as int, text.len() as int) =~= tail);
    lemma_replaced_without_match(tail, pattern, value);
}

/// A path in which the pattern of no variable occurs comes out of the
/// expansion as it went in.
pub proof fn lemma_expand_without_match(path: Seq<char>, env: Seq<EnvVar>, n: int)
    requires
        0 <= n <= env.len(),
        forall|k: int| 0 <= k < n ==> !occurs(path, pattern_of(#[trigger] env[k].name@)),
    ensures
        expanded(path, env, n) == path,
    decreases n,
{
    if n > 0 {
        lemma_expand_without_match(path, env, n - 1);
        lemma_replaced_without_match(path, pattern_of(env[n - 1].name@), env[n - 1].value@);
    }
}

/// In the pattern of a name that holds neither `$` nor `)`, the pattern
/// of no other name occurs.
pub proof fn lemma_pattern_of_plain_name(name: Seq<char>, other: Seq<char>)
    requires
        !name.contains('$'),
        !name.contains(')'),
        occurs(pattern_of(name), pattern_of(other)),
    ensures
        other == name,
{
    reveal_strlit("$(");
    reveal_strlit(")");
    let text = pattern_of(name);
    let pattern = pattern_of(other);
    assert(text.len() == name.len() + 3);
    assert(pattern.len() == other.len() + 3);
    let i = choose|i: int|
        0 <= i && i + pattern.len() <= text.len() && #[trigger] text.subrange(
            i,
            i + pattern.len(),
        ) == pattern;
    let part = text.subrange(i, i + pattern.len());
    assert(part[0] == pattern[0]);
    assert(pattern[0] == '$');
    if i > 0 {
        if i < name.len() + 2 {
            assert(text[i] == name[i - 2]);
            assert(name.contains('$'));
        }
    }
    assert(i == 0);
    let m = other.len() as int;
    assert(part[m + 2] == pattern[m + 2]);
    assert(pattern[m + 2] == ')');
    if m < name.len() {
        assert(text[m + 2] == name[m]);
        assert(name.contains(')'));
    }
    assert(other.len() == name.len());
    assert forall|k: int| 0 <= k < name.len() implies other[k] == name[k] by {
        assert(part[k + 2] == pattern[k + 2]);
    }
    assert(other =~= name);
}

/// A path that is the pattern of a variable which is not set, with a name
/// that holds neither `$` nor `)`, gives no file: the area keeps its fill.
pub proof fn lemma_unset_variable_gives_no_file(name: Seq<char>, env: Seq<EnvVar>)
    requires
        !name.contains('$'),
        !name.contains(')'),
        forall|k: int| 0 <= k < env.len() ==> (#[trigger] env[k]).name@ != name,
    ensures
        file_path_of(Some(pattern_of(name)), env) is None,
{
    reveal_strlit("$(");
    reveal_strlit(")");
    let path = pattern_of(name);
    assert forall|k: int| 0 <= k < env.len() implies !occurs(
        path,
        pattern_of(#[trigger] env[k].name@),
    ) by {
        if occurs(path, pattern_of(env[k].name@)) {
            lemma_pattern_of_plain_name(name, env[k].name@);
        }
    }
    lemma_expand_without_match(path, env, env.len() as int);
    assert(path.subrange(0, 2) =~= "$("@);
    assert(path.last() == ')');
}

} // verus!
