use vstd::prelude::*;

use crate::text::{chars_of, push_all, string_from_chars};

verus! {

/// The XML escape of one character: `&`, `<`, `>` and `"` become entities.
pub open spec fn xml_escape_char(c: char) -> Seq<char> {
    if c == '&' {
        seq!['&', 'a', 'm', 'p', ';']
    } else if c == '<' {
        seq!['&', 'l', 't', ';']
    } else if c == '>' {
        seq!['&', 'g', 't', ';']
    } else if c == '"' {
        seq!['&', 'q', 'u', 'o', 't', ';']
    } else {
        seq![c]
    }
}

/// `s` with each character escaped for XML.
pub open spec fn xml_escaped(s: Seq<char>) -> Seq<char>
    decreases s.len(),
{
    if s.len() == 0 {
        Seq::empty()
    } else {
        xml_escaped(s.drop_last()) + xml_escape_char(s.last())
    }
}

fn escape_char(c: char) -> (r: Vec<char>)
    ensures
        r@ == xml_escape_char(c),
{
    let r = if c == '&' {
        vec!['&', 'a', 'm', 'p', ';']
    } else if c == '<' {
        vec!['&', 'l', 't', ';']
    } else if c == '>' {
        vec!['&', 'g', 't', ';']
    } else if c == '"' {
        vec!['&', 'q', 'u', 'o', 't', ';']
    } else {
        vec![c]
    };
    assert(r@ =~= xml_escape_char(c));
    r
}

/// `s` with `&`, `<`, `>` and `"` written as the XML entities `&amp;`, `&lt;`, `&gt;` and
/// `&quot;`.
pub fn escape_xml(s: &str) -> (r: String)
    ensures
        r@ == xml_escaped(s@),
{
    let v = chars_of(s);
    let mut out: Vec<char> = Vec::new();
    let mut i: usize = 0;
    while i < v.len()
        invariant
            i <= v@.len(),
            out@ == xml_escaped(v@.take(i as int)),
        decreases v.len() - i,
    {
        let e = escape_char(v[i]);
        push_all(&mut out, &e);
        proof {
            assert(v@.take(i + 1).drop_last() =~= v@.take(i as int));
        }
        i = i + 1;
    }
    assert(v@.take(v@.len() as int) =~= v@);
    string_from_chars(&out)
}

/// Text escaped for XML holds no `<`, `>` or `"`.
pub proof fn law_xml_escaped_has_no_markup(s: Seq<char>)
    ensures
        !xml_escaped(s).contains('<'),
        !xml_escaped(s).contains('>'),
        !xml_escaped(s).contains('"'),
    decreases s.len(),
{
    if s.len() > 0 {
        law_xml_escaped_has_no_markup(s.drop_last());
        let a = xml_escaped(s.drop_last());
        let b = xml_escape_char(s.last());
        assert(xml_escaped(s) == a + b);
        assert forall|c: char| c == '<' || c == '>' || c == '"' implies !(a + b).contains(c) by {
            if (a + b).contains(c) {
                let i = choose|i: int| 0 <= i < (a + b).len() && (a + b)[i] == c;
                if i < a.len() {
                    assert(a[i] == c);
                } else {
                    assert(b[i - a.len()] == c);
                }
            }
        }
    }
}

/// The text naming a waypoint in the table: its name and description separated by a
/// comma and a space, whichever of them is not empty, or `unknown`.
pub open spec fn name_description_text(name: Seq<char>, description: Seq<char>) -> Seq<char> {
    if name.len() > 0 && description.len() > 0 {
        name + seq![',', ' '] + description
    } else if description.len() > 0 {
        description
    } else if name.len() > 0 {
        name
    } else {
        seq!['u', 'n', 'k', 'n', 'o', 'w', 'n']
    }
}

/// The text naming a waypoint in the table (see `name_description_text`), before it is cut
/// to the width of its column.
pub fn name_and_description(name: &str, description: &str) -> (r: String)
    ensures
        r@ == name_description_text(name@, description@),
{
    let n = chars_of(name);
    let d = chars_of(description);
    let mut v: Vec<char> = Vec::new();
    if n.len() > 0 && d.len() > 0 {
        push_all(&mut v, &n);
        v.push(',');
        v.push(' ');
        push_all(&mut v, &d);
        assert(v@ =~= n@ + seq![',', ' '] + d@);
    } else if d.len() > 0 {
        push_all(&mut v, &d);
        assert(v@ =~= d@);
    } else if n.len() > 0 {
        push_all(&mut v, &n);
        assert(v@ =~= n@);
    } else {
        v = vec!['u', 'n', 'k', 'n', 'o', 'w', 'n'];
        assert(v@ =~= seq!['u', 'n', 'k', 'n', 'o', 'w', 'n']);
    }
    string_from_chars(&v)
}

} // verus!
