//! Pieces of the rules guide: HTML escaping of content-derived labels and the build stamp of
//! the guide's prose.
use vstd::prelude::*;
use crate::identity::{lower_hex, sha256, spec_sha256};
use crate::text::{chars_of, string_push};
use vstd::string::StringExecFns;
use vstd::string::StringSliceAdditionalSpecFns;

verus! {

broadcast use vstd::string::group_string_axioms;

/// The HTML entity for the five characters that markup reserves; any other character stands.
pub open spec fn escape_char(c: char) -> Seq<char> {
    if c == '&' {
        seq!['&', 'a', 'm', 'p', ';']
    } else if c == '<' {
        seq!['&', 'l', 't', ';']
    } else if c == '>' {
        seq!['&', 'g', 't', ';']
    } else if c == '"' {
        seq!['&', 'q', 'u', 'o', 't', ';']
    } else if c == '\'' {
        seq!['&', '#', '3', '9', ';']
    } else {
        seq![c]
    }
}

pub open spec fn spec_escape(s: Seq<char>) -> Seq<char>
    decreases s.len(),
{
    if s.len() == 0 {
        seq![]
    } else {
        spec_escape(s.drop_last()) + escape_char(s.last())
    }
}

/// Escapes `&`, `<`, `>`, `"` and `'` for use in HTML text and attribute values.
pub fn escape(text: &str) -> (r: String)
    ensures
        r@ == spec_escape(text@),
{
    let chars = chars_of(text);
    let mut out = String::new();
    let mut i: usize = 0;
    while i < chars.len()
        invariant
            0 <= i <= chars@.len(),
            chars@ == text@,
            out@ == spec_escape(chars@.take(i as int)),
        decreases chars.len() - i,
    {
        let c = chars[i];
        proof {
            assert(chars@.take(i as int + 1).drop_last() == chars@.take(i as int));
        }
        if c == '&' {
            proof { reveal_strlit("&amp;"); }
            out.append("&amp;");
        } else if c == '<' {
            proof { reveal_strlit("&lt;"); }
            out.append("&lt;");
        } else if c == '>' {
            proof { reveal_strlit("&gt;"); }
            out.append("&gt;");
        } else if c == '"' {
            proof { reveal_strlit("&quot;"); }
            out.append("&quot;");
        } else if c == '\'' {
            proof { reveal_strlit("&#39;"); }
            out.append("&#39;");
        } else {
            string_push(&mut out, c);
        }
        i += 1;
    }
    assert(chars@.take(chars@.len() as int) == chars@);
    out
}

/// The bytes the guide's build stamp hashes: a renderer tag line, then the prose.
pub open spec fn rules_input(prose: &str) -> Seq<u8> {
    "atemporal-guide-renderer-v3\n".spec_bytes() + prose.spec_bytes()
}

fn append_bytes(v: &mut Vec<u8>, b: &[u8])
    ensures
        final(v)@ == old(v)@ + b@,
{
    let ghost start = v@;
    let mut i: usize = 0;
    while i < b.len()
        invariant
            0 <= i <= b@.len(),
            v@ == start + b@.take(i as int),
        decreases b.len() - i,
    {
        v.push(b[i]);
        assert(b@.take(i as int + 1) == b@.take(i as int).push(b@[i as int]));
        i += 1;
    }
    assert(b@.take(b@.len() as int) == b@);
}

/// The build stamp of the guide's rules: SHA-256, in hex, of the renderer tag and the prose.
pub fn rules_build(prose: &str) -> (r: String)
    ensures
        r@ == lower_hex(spec_sha256(rules_input(prose))),
{
    let mut bytes: Vec<u8> = Vec::new();
    append_bytes(&mut bytes, "atemporal-guide-renderer-v3\n".as_bytes());
    append_bytes(&mut bytes, prose.as_bytes());
    sha256(bytes.as_slice())
}

} // verus!
