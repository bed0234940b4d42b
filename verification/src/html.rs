//! HTML text escaping and a small tag-tree builder.

pub mod builder;

use vstd::prelude::*;
use vstd::string::StrSliceExecFns;
use vstd::string::StringExecFns;

verus! {

/// How one character is written inside HTML text: `<`, `>`, `"` and `&`
/// become their named entities, everything else stands as itself.
pub open spec fn escape_char(c: char) -> Seq<char> {
    if c == '<' {
        seq!['&', 'l', 't', ';']
    } else if c == '>' {
        seq!['&', 'g', 't', ';']
    } else if c == '"' {
        seq!['&', 'q', 'u', 'o', 't', ';']
    } else if c == '&' {
        seq!['&', 'a', 'm', 'p', ';']
    } else {
        seq![c]
    }
}

/// The HTML escaping of a whole character sequence.
pub open spec fn escape_spec(s: Seq<char>) -> Seq<char>
    decreases s.len(),
{
    if s.len() == 0 {
        Seq::empty()
    } else {
        escape_spec(s.drop_last()) + escape_char(s.last())
    }
}

/// Replaces `<`, `>`, `"` and `&` by their named entities.
pub fn escape_html(s: &str) -> (r: String)
    ensures
        r@ == escape_spec(s@),
{
    let mut result = String::new();
    let n = s.unicode_len();
    let mut i: usize = 0;
    while i < n
        invariant
            i <= n,
            n == s@.len(),
            result@ == escape_spec(s@.take(i as int)),
        decreases n - i,
    {
        let c = s.get_char(i);
        if c == '<' {
            result.append("&lt;");
            proof {
                reveal_strlit("&lt;");
                assert("&lt;"@ =~= seq!['&', 'l', 't', ';']);
            }
        } else if c == '>' {
            result.append("&gt;");
            proof {
                reveal_strlit("&gt;");
                assert("&gt;"@ =~= seq!['&', 'g', 't', ';']);
            }
        } else if c == '"' {
            result.append("&quot;");
            proof {
                reveal_strlit("&quot;");
                assert("&quot;"@ =~= seq!['&', 'q', 'u', 'o', 't', ';']);
            }
        } else if c == '&' {
            result.append("&amp;");
            proof {
                reveal_strlit("&amp;");
                assert("&amp;"@ =~= seq!['&', 'a', 'm', 'p', ';']);
            }
        } else {
            let piece = s.substring_char(i, i + 1);
            result.append(piece);
            proof {
                assert(piece@ =~= seq![c]);
            }
        }
        proof {
            assert(s@.take(i + 1).drop_last() =~= s@.take(i as int));
            assert(s@.take(i + 1).last() == s@[i as int]);
        }
        i = i + 1;
    }
    proof {
        assert(s@.take(s@.len() as int) =~= s@);
    }
    result
}

/// On text already free of `<`, `>`, `"` and `&`, escaping changes nothing.
pub proof fn lemma_escape_clean_noop(s: Seq<char>)
    requires
        forall|i: int|
            0 <= i < s.len() ==> s[i] != '<' && s[i] != '>' && s[i] != '"' && s[i] != '&',
    ensures
        escape_spec(s) == s,
    decreases s.len(),
{
    if s.len() == 0 {
        assert(escape_spec(s) =~= s);
    } else {
        lemma_escape_clean_noop(s.drop_last());
        assert(escape_spec(s) =~= s);
    }
}

} // verus!
