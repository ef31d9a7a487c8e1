//! The fixed list of URL schemes the parser recognises.
use vstd::prelude::*;

verus! {

/// Number of recognised schemes.
pub const SCHEME_COUNT: usize = 8;

/// The characters of the scheme with index `i`.
pub open spec fn scheme_text(i: int) -> Seq<char> {
    if i == 0 {
        seq!['h', 't', 't', 'p']
    } else if i == 1 {
        seq!['h', 't', 't', 'p', 's']
    } else if i == 2 {
        seq!['m', 'a', 'i', 'l', 't', 'o']
    } else if i == 3 {
        seq!['n', 'e', 'w', 's']
    } else if i == 4 {
        seq!['f', 'i', 'l', 'e']
    } else if i == 5 {
        seq!['g', 'i', 't']
    } else if i == 6 {
        seq!['s', 's', 'h']
    } else {
        seq!['f', 't', 'p']
    }
}

/// The scheme with index `i`, read from its last character to its first.
pub open spec fn reversed_scheme(i: int) -> Seq<char> {
    Seq::new(scheme_text(i).len(), |j: int| scheme_text(i)[scheme_text(i).len() - 1 - j])
}

/// Whether `a` ends with `b`.
pub open spec fn ends_with(a: Seq<char>, b: Seq<char>) -> bool {
    b.len() <= a.len() && a.subrange(a.len() - b.len(), a.len() as int) == b
}

/// Returns the scheme with index `i`.
pub fn scheme(i: usize) -> (r: &'static str)
    requires
        i < SCHEME_COUNT,
    ensures
        r@ == scheme_text(i as int),
{
    if i == 0 {
        proof {
            reveal_strlit("http");
        }
        assert("http"@ =~= scheme_text(0));
        "http"
    } else if i == 1 {
        proof {
            reveal_strlit("https");
        }
        assert("https"@ =~= scheme_text(1));
        "https"
    } else if i == 2 {
        proof {
            reveal_strlit("mailto");
        }
        assert("mailto"@ =~= scheme_text(2));
        "mailto"
    } else if i == 3 {
        proof {
            reveal_strlit("news");
        }
        assert("news"@ =~= scheme_text(3));
        "news"
    } else if i == 4 {
        proof {
            reveal_strlit("file");
        }
        assert("file"@ =~= scheme_text(4));
        "file"
    } else if i == 5 {
        proof {
            reveal_strlit("git");
        }
        assert("git"@ =~= scheme_text(5));
        "git"
    } else if i == 6 {
        proof {
            reveal_strlit("ssh");
        }
        assert("ssh"@ =~= scheme_text(6));
        "ssh"
    } else {
        proof {
            reveal_strlit("ftp");
        }
        assert("ftp"@ =~= scheme_text(7));
        "ftp"
    }
}

/// No recognised scheme ends with another one, so the first scheme to be
/// matched completely while reading backwards is the only one that can be.
pub proof fn lemma_schemes_suffix_free()
    ensures
        forall|i: int, j: int|
            0 <= i < SCHEME_COUNT && 0 <= j < SCHEME_COUNT && i != j ==> !ends_with(
                scheme_text(i),
                scheme_text(j),
            ),
{
    assert forall|i: int, j: int|
        0 <= i < SCHEME_COUNT && 0 <= j < SCHEME_COUNT && i != j implies !ends_with(
            scheme_text(i),
            scheme_text(j),
        ) by {
        let a = scheme_text(i);
        let b = scheme_text(j);
        if b.len() <= a.len() {
            let s = a.subrange(a.len() - b.len(), a.len() as int);
            if s == b {
                assert(s[b.len() - 1] == b[b.len() - 1]);
                assert(s[b.len() - 2] == b[b.len() - 2]);
                assert(s[b.len() - 3] == b[b.len() - 3]);
            }
        }
    }
}

} // verus!
