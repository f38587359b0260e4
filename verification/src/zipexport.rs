use vstd::prelude::*;

use crate::text::chars_of;

verus! {

/// A compiled regular expression of the `regex` crate.
#[verifier::external_type_specification]
#[verifier::external_body]
pub struct ExRegex(regex::Regex);

/// The error of the `regex` crate when a pattern does not compile.
#[verifier::external_type_specification]
#[verifier::external_body]
pub struct ExRegexError(regex::Error);

/// Whether `regex::Regex::new` compiles the pattern (it refuses invalid patterns and those
/// whose automaton would pass the default size limit).
pub uninterp spec fn regex_compiles(pattern: Seq<char>) -> bool;

/// What `regex::Regex::replace_all` makes of `haystack`: each leftmost-first,
/// non-overlapping match of `pattern` replaced by `replacement` (where `$name` and `$1`
/// stand for groups).
pub uninterp spec fn regex_replaced(pattern: Seq<char>, haystack: Seq<char>, replacement: Seq<char>) -> Seq<char>;

/// Compiles `pattern` with `regex::Regex::new` and, when that succeeds, replaces all its
/// matches in `haystack` by `replacement` with `Regex::replace_all`. Whether the pattern
/// compiles and what the replacement gives are named (`regex_compiles`, `regex_replaced`)
/// and not spelled out.
#[verifier::external_body]
fn regex_replace_all(pattern: &str, haystack: &str, replacement: &str) -> (r: Result<
    String,
    regex::Error,
>)
    ensures
        r is Ok <==> regex_compiles(pattern@),
        r matches Ok(s) ==> s@ == regex_replaced(pattern@, haystack@, replacement@),
{
    match regex::Regex::new(pattern) {
        Ok(re) => Ok(re.replace_all(haystack, replacement).into_owned()),
        Err(e) => Err(e),
    }
}

/// The pattern of a run of whitespace.
pub open spec fn whitespace_run() -> Seq<char> {
    "\\s+"@
}

/// The pattern of a character that has no place in a file name: anything but a word
/// character, a dot or a hyphen.
pub open spec fn illegal_char() -> Seq<char> {
    "[^\\w\\.\\-]"@
}

/// The name used in place of an empty name or of `.` and `..`.
pub open spec fn default_filename() -> Seq<char> {
    "default_filename"@
}

/// `s`, or the default name where `s` is empty, `.` or `..`.
pub open spec fn tidy_name(s: Seq<char>) -> Seq<char> {
    if s.len() == 0 || s == seq!['.'] || s == seq!['.', '.'] {
        default_filename()
    } else {
        s
    }
}

/// The file name made of `input`: runs of whitespace become hyphens, then every character
/// that is not a word character, a dot or a hyphen is dropped; an empty result, `.` and
/// `..` give the default name.
pub open spec fn sanitized_name(input: Seq<char>) -> Seq<char> {
    tidy_name(
        regex_replaced(illegal_char(), regex_replaced(whitespace_run(), input, "-"@), ""@),
    )
}

/// Whether both patterns of the file names compile.
pub open spec fn filename_patterns_compile() -> bool {
    regex_compiles(whitespace_run()) && regex_compiles(illegal_char())
}

/// Replaces a name that is empty, `.` or `..` by the default name.
pub fn tidy_filename(name: String) -> (r: String)
    ensures
        r@ == tidy_name(name@),
{
    let v = chars_of(name.as_str());
    if v.len() == 0 || (v.len() == 1 && v[0] == '.') || (v.len() == 2 && v[0] == '.' && v[1]
        == '.') {
        proof {
            if v@.len() == 1 {
                assert(v@ =~= seq!['.']);
            }
            if v@.len() == 2 {
                assert(v@ =~= seq!['.', '.']);
            }
        }
        "default_filename".to_owned()
    } else {
        proof {
            if v@.len() == 1 {
                assert(v@ != seq!['.']) by {
                    assert(v@[0] != seq!['.'][0]);
                }
            }
            if v@.len() == 2 {
                assert(v@ != seq!['.', '.']) by {
                    if v@[0] != '.' {
                        assert(v@[0] != seq!['.', '.'][0]);
                    } else {
                        assert(v@[1] != seq!['.', '.'][1]);
                    }
                }
            }
        }
        name
    }
}

/// A name for a file made of `input` (see `sanitized_name`); `None` if one of the two
/// patterns does not compile.
pub fn sanitize_filename_regex(input: &str) -> (r: Option<String>)
    ensures
        r is Some <==> filename_patterns_compile(),
        r matches Some(s) ==> s@ == sanitized_name(input@),
{
    let intermediate = match regex_replace_all("\\s+", input, "-") {
        Ok(s) => s,
        Err(_) => {
            return None;
        },
    };
    let sanitized = match regex_replace_all("[^\\w\\.\\-]", intermediate.as_str(), "") {
        Ok(s) => s,
        Err(_) => {
            return None;
        },
    };
    Some(tidy_filename(sanitized))
}

/// A name made for a file is never empty, `.` or `..`.
pub proof fn law_tidy_name_is_usable(s: Seq<char>)
    ensures
        tidy_name(s).len() > 0,
        tidy_name(s) != seq!['.'],
        tidy_name(s) != seq!['.', '.'],
{
    reveal_strlit("default_filename");
    if tidy_name(s) == default_filename() {
        assert(default_filename().len() == 16);
        assert(default_filename()[0] == 'd');
        assert(seq!['.'][0] == '.');
        assert(seq!['.', '.'].len() == 2);
    }
}

} // verus!
