//! The git integration's status report.
//!
//! The probes themselves — does a `git` binary answer, is the path
//! inside a work tree, are a user name and email configured — are
//! subprocess calls made by the hosting application. Combining their
//! outcomes into one report is pure and is done here.

use vstd::prelude::*;

verus! {

/// Whether a character has the Unicode white-space property, as
/// `char::is_whitespace` decides it.
pub uninterp spec fn white(c: char) -> bool;

/// Relies on `char::is_whitespace`: the Unicode white-space property,
/// a function of the character alone.
#[verifier::external_body]
fn char_is_white(c: char) -> (r: bool)
    ensures
        r == white(c),
{
    c.is_whitespace()
}

/// The sequence with its leading white space removed.
pub open spec fn trim_start_model(s: Seq<char>) -> Seq<char>
    decreases s.len(),
{
    if s.len() == 0 {
        s
    } else if white(s[0]) {
        trim_start_model(s.subrange(1, s.len() as int))
    } else {
        s
    }
}

/// The sequence with its trailing white space removed.
pub open spec fn trim_end_model(s: Seq<char>) -> Seq<char>
    decreases s.len(),
{
    if s.len() == 0 {
        s
    } else if white(s[s.len() - 1]) {
        trim_end_model(s.subrange(0, s.len() - 1))
    } else {
        s
    }
}

/// The sequence with white space removed from both ends.
pub open spec fn trim_model(s: Seq<char>) -> Seq<char> {
    trim_end_model(trim_start_model(s))
}

/// The index of the first newline, or the length when there is none.
pub open spec fn first_nl(s: Seq<char>) -> int
    decreases s.len(),
{
    if s.len() == 0 {
        0
    } else if s[0] == '\n' {
        0
    } else {
        1 + first_nl(s.subrange(1, s.len() as int))
    }
}

/// `first_nl` is in range, points at a newline when short of the end,
/// and nothing before it is a newline.
pub proof fn lemma_first_nl(s: Seq<char>)
    ensures
        0 <= first_nl(s) <= s.len(),
        first_nl(s) < s.len() ==> s[first_nl(s)] == '\n',
        forall|k: int| 0 <= k < first_nl(s) ==> s[k] != '\n',
    decreases s.len(),
{
    if s.len() != 0 && s[0] != '\n' {
        let tail = s.subrange(1, s.len() as int);
        lemma_first_nl(tail);
        assert forall|k: int| 0 <= k < first_nl(s) implies s[k] != '\n' by {
            if k > 0 {
                assert(tail[k - 1] == s[k]);
            }
        }
    }
}

/// Those three facts pin `first_nl` down.
proof fn lemma_first_nl_unique(s: Seq<char>, e: int)
    requires
        0 <= e <= s.len(),
        forall|k: int| 0 <= k < e ==> s[k] != '\n',
        e == s.len() || s[e] == '\n',
    ensures
        first_nl(s) == e,
    decreases e,
{
    if s.len() != 0 && s[0] != '\n' {
        let tail = s.subrange(1, s.len() as int);
        assert forall|k: int| 0 <= k < e - 1 implies tail[k] != '\n' by {
            assert(tail[k] == s[k + 1]);
        }
        lemma_first_nl_unique(tail, e - 1);
    }
}

/// What the branch listing's output parses to: its lines, each trimmed
/// of surrounding white space, the empty ones dropped, in order.
pub open spec fn branches_model(s: Seq<char>) -> Seq<Seq<char>>
    decreases s.len(),
    via branches_model_dec
{
    if s.len() == 0 {
        Seq::empty()
    } else {
        let k = first_nl(s);
        let line = trim_model(s.subrange(0, k));
        let rest = if k >= s.len() {
            Seq::empty()
        } else {
            branches_model(s.subrange(k + 1, s.len() as int))
        };
        if line.len() == 0 {
            rest
        } else {
            seq![line] + rest
        }
    }
}

#[via_fn]
proof fn branches_model_dec(s: Seq<char>) {
    if s.len() != 0 {
        lemma_first_nl(s);
    }
}

/// Dropping a white prefix: `trim_start_model` keeps exactly the part
/// from the first non-white character on.
proof fn lemma_trim_start_range(s: Seq<char>, a: int)
    requires
        0 <= a <= s.len(),
        forall|k: int| 0 <= k < a ==> white(#[trigger] s[k]),
        a == s.len() || !white(s[a]),
    ensures
        trim_start_model(s) == s.subrange(a, s.len() as int),
    decreases a,
{
    if a == 0 {
        assert(trim_start_model(s) =~= s.subrange(0, s.len() as int));
    } else {
        let tail = s.subrange(1, s.len() as int);
        assert forall|k: int| 0 <= k < a - 1 implies white(#[trigger] tail[k]) by {
            assert(tail[k] == s[k + 1]);
        }
        if a < s.len() {
            assert(tail[a - 1] == s[a]);
        }
        lemma_trim_start_range(tail, a - 1);
        assert(trim_start_model(s) =~= s.subrange(a, s.len() as int));
    }
}

/// Dropping a white suffix: `trim_end_model` keeps exactly the part up
/// to the last non-white character.
proof fn lemma_trim_end_range(s: Seq<char>, b: int)
    requires
        0 <= b <= s.len(),
        forall|k: int| b <= k < s.len() ==> white(#[trigger] s[k]),
        b == 0 || !white(s[b - 1]),
    ensures
        trim_end_model(s) == s.subrange(0, b),
    decreases s.len() - b,
{
    if b == s.len() {
        assert(trim_end_model(s) =~= s.subrange(0, b));
    } else {
        let front = s.subrange(0, s.len() - 1);
        assert forall|k: int| b <= k < front.len() implies white(#[trigger] front[k]) by {
            assert(front[k] == s[k]);
        }
        lemma_trim_end_range(front, b);
        assert(trim_end_model(s) =~= s.subrange(0, b));
    }
}

/// Trims the white space off both ends of a string.
pub fn trim_str(s: &str) -> (r: String)
    ensures
        r@ == trim_model(s@),
{
    let n = s.unicode_len();
    let mut a: usize = 0;
    loop
        invariant
            n == s@.len(),
            a <= n,
            forall|k: int| 0 <= k < a ==> white(#[trigger] s@[k]),
        ensures
            a <= n,
            forall|k: int| 0 <= k < a ==> white(#[trigger] s@[k]),
            a == n || !white(s@[a as int]),
        decreases n - a,
    {
        if a == n {
            break;
        }
        if !char_is_white(s.get_char(a)) {
            break;
        }
        a = a + 1;
    }
    let mut b: usize = n;
    loop
        invariant
            n == s@.len(),
            a <= b <= n,
            forall|k: int| b <= k < n ==> white(#[trigger] s@[k]),
        ensures
            a <= b <= n,
            forall|k: int| b <= k < n ==> white(#[trigger] s@[k]),
            b == a || !white(s@[b - 1]),
        decreases b - a,
    {
        if b == a {
            break;
        }
        if !char_is_white(s.get_char(b - 1)) {
            break;
        }
        b = b - 1;
    }
    proof {
        lemma_trim_start_range(s@, a as int);
        let ts = s@.subrange(a as int, n as int);
        assert forall|j: int| b - a <= j < ts.len() implies white(#[trigger] ts[j]) by {
            assert(ts[j] == s@[a + j]);
        }
        if b > a {
            assert(ts[b - a - 1] == s@[b - 1]);
        }
        lemma_trim_end_range(ts, b - a);
        assert(trim_model(s@) =~= s@.subrange(a as int, b as int));
    }
    let piece = s.substring_char(a, b);
    String::from_str(piece)
}

/// Parses the branch listing's raw output: one branch per line, each
/// trimmed of surrounding white space, empty lines dropped, in order.
pub fn parse_branches(out: &str) -> (r: Vec<String>)
    ensures
        r.deep_view() == branches_model(out@),
{
    let n = out.unicode_len();
    let mut r: Vec<String> = Vec::new();
    let mut start: usize = 0;
    proof {
        assert(out@.subrange(0, n as int) =~= out@);
    }
    while start < n
        invariant
            n == out@.len(),
            start <= n,
            branches_model(out@) == r.deep_view() + branches_model(
                out@.subrange(start as int, n as int),
            ),
        decreases n - start,
    {
        let ghost rem = out@.subrange(start as int, n as int);
        let mut e: usize = start;
        loop
            invariant
                n == out@.len(),
                start <= e <= n,
                forall|k: int| start <= k < e ==> out@[k] != '\n',
            ensures
                n == out@.len(),
                start <= e <= n,
                forall|k: int| start <= k < e ==> out@[k] != '\n',
                e == n || out@[e as int] == '\n',
            decreases n - e,
        {
            if e == n {
                break;
            }
            if out.get_char(e) == '\n' {
                break;
            }
            e = e + 1;
        }
        let ghost k = e - start;
        proof {
            assert forall|j: int| 0 <= j < k implies rem[j] != '\n' by {
                assert(rem[j] == out@[start + j]);
            }
            if k < rem.len() {
                assert(rem[k as int] == out@[e as int]);
            }
            lemma_first_nl_unique(rem, k);
        }
        let piece = out.substring_char(start, e);
        let t = trim_str(piece);
        proof {
            assert(piece@ =~= rem.subrange(0, k as int));
        }
        if t.unicode_len() != 0 {
            let ghost r0 = r.deep_view();
            r.push(t);
            proof {
                assert(r.deep_view() =~= r0.push(trim_model(rem.subrange(0, k as int))));
            }
        }
        let ghost r1 = r.deep_view();
        if e == n {
            start = n;
            proof {
                assert(out@.subrange(start as int, n as int).len() == 0);
                assert(branches_model(out@) =~= r1 + branches_model(
                    out@.subrange(start as int, n as int),
                ));
            }
        } else {
            start = e + 1;
            proof {
                assert(rem.subrange(k + 1, rem.len() as int) =~= out@.subrange(
                    start as int,
                    n as int,
                ));
                assert(branches_model(out@) =~= r1 + branches_model(
                    out@.subrange(start as int, n as int),
                ));
            }
        }
    }
    proof {
        assert(branches_model(out@) =~= r.deep_view());
    }
    r
}

/// The health of the git integration for one project path.
#[derive(Clone, Copy, Debug, PartialEq, Eq, Structural)]
pub struct GitStatus {
    /// A `git` binary is installed and answers.
    pub git_installed: bool,
    /// The path lies inside a git work tree.
    pub is_repo: bool,
    /// Both `user.name` and `user.email` are configured there.
    pub user_configured: bool,
}

/// Combines the four probe outcomes into one status. A later probe
/// counts only when every earlier one succeeded: without git there is
/// no repository, and without a repository no configured user.
pub fn status_from_checks(git_installed: bool, is_repo: bool, has_name: bool, has_email: bool) -> (r:
    GitStatus)
    ensures
        r.git_installed == git_installed,
        r.is_repo == (git_installed && is_repo),
        r.user_configured == (git_installed && is_repo && has_name && has_email),
{
    if !git_installed {
        GitStatus { git_installed: false, is_repo: false, user_configured: false }
    } else if !is_repo {
        GitStatus { git_installed: true, is_repo: false, user_configured: false }
    } else {
        GitStatus { git_installed: true, is_repo: true, user_configured: has_name && has_email }
    }
}

} // verus!
