//! Escaping of source text for embedding in markup: the five characters with
//! a reserved meaning are replaced by entity references, all others stand for
//! themselves.

use vstd::prelude::*;
use vstd::string::StringExecFns;

verus! {

/// The escaped form of one character: `& < > " '` become entity references,
/// every other character stands for itself.
pub open spec fn escape_char(c: char) -> Seq<char> {
    if c == '&' {
        seq!['&', 'a', 'm', 'p', ';']
    } else if c == '<' {
        seq!['&', 'l', 't', ';']
    } else if c == '>' {
        seq!['&', 'g', 't', ';']
    } else if c == '"' {
        seq!['&', 'q', 'u', 'o', 't', ';']
    } else if c == '\'' {
        seq!['&', '#', 'x', '2', '7', ';']
    } else {
        seq![c]
    }
}

/// Relies on String::push: appends exactly the one character `c`.
#[verifier::external_body]
pub(crate) fn push_char(s: &mut String, c: char)
    ensures
        final(s)@ == old(s)@ + seq![c],
{
    s.push(c);
}

/// Appends the escaped form of `c` to `out`.
pub fn push_escaped(out: &mut String, c: char)
    ensures
        final(out)@ == old(out)@ + escape_char(c),
{
    if c == '&' {
        out.append("&amp;");
        proof {
            reveal_strlit("&amp;");
            assert("&amp;"@ =~= escape_char('&'));
        }
    } else if c == '<' {
        out.append("&lt;");
        proof {
            reveal_strlit("&lt;");
            assert("&lt;"@ =~= escape_char('<'));
        }
    } else if c == '>' {
        out.append("&gt;");
        proof {
            reveal_strlit("&gt;");
            assert("&gt;"@ =~= escape_char('>'));
        }
    } else if c == '"' {
        out.append("&quot;");
        proof {
            reveal_strlit("&quot;");
            assert("&quot;"@ =~= escape_char('"'));
        }
    } else if c == '\'' {
        out.append("&#x27;");
        proof {
            reveal_strlit("&#x27;");
            assert("&#x27;"@ =~= escape_char('\''));
        }
    } else {
        push_char(out, c);
    }
}

} // verus!
