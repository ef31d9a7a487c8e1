//! Properties of the parser over whole sequences of characters.
use vstd::prelude::*;

use crate::chars::{ascii_letter, illegal_char, surround_char, terminator_char};
use crate::parser::{
    completes, completes_any, fresh, last_match, lemma_last_match, scheme_len, step, ParserState,
    ParserView, State,
};
use crate::scheme::{ends_with, reversed_scheme, SCHEME_COUNT};

verus! {

/// The state reached from `p` after reading every character of `fed`, in order.
pub open spec fn run(p: ParserView, fed: Seq<char>) -> ParserView
    decreases fed.len(),
{
    if fed.len() == 0 {
        p
    } else {
        step(run(p, fed.drop_last()), fed.last()).0
    }
}

/// What the parser reports when it reads `fed[i]`, having started in `p`.
pub open spec fn report(p: ParserView, fed: Seq<char>, i: int) -> ParserState {
    step(run(p, fed.take(i)), fed[i]).1
}

/// Reading `a` and then `b` is reading `a + b`.
pub proof fn lemma_run_concat(p: ParserView, a: Seq<char>, b: Seq<char>)
    ensures
        run(p, a + b) == run(run(p, a), b),
    decreases b.len(),
{
    if b.len() == 0 {
        assert(a + b =~= a);
    } else {
        lemma_run_concat(p, a, b.drop_last());
        assert((a + b).drop_last() =~= a + b.drop_last());
        assert((a + b).last() == b.last());
    }
}

/// What is reported on `b` after `a` is what is reported on `b` from the
/// state that `a` leads to.
pub proof fn lemma_reports_after(p: ParserView, a: Seq<char>, b: Seq<char>)
    ensures
        forall|i: int|
            0 <= i < b.len() ==> #[trigger] report(p, a + b, a.len() + i) == report(
                run(p, a),
                b,
                i,
            ),
{
    assert forall|i: int| 0 <= i < b.len() implies #[trigger] report(p, a + b, a.len() + i)
        == report(run(p, a), b, i) by {
        assert((a + b).take(a.len() + i) =~= a + b.take(i));
        assert((a + b)[a.len() + i] == b[i]);
        lemma_run_concat(p, a, b.take(i));
    }
}

/// The last character of a non-empty `fed` is reported on by the step that ends the run.
proof fn lemma_run_last(p: ParserView, fed: Seq<char>)
    requires
        fed.len() > 0,
    ensures
        run(p, fed) == step(run(p, fed.take(fed.len() - 1)), fed.last()).0,
        report(p, fed, fed.len() - 1) == step(run(p, fed.take(fed.len() - 1)), fed.last()).1,
{
    assert(fed.drop_last() =~= fed.take(fed.len() - 1));
}

/// Once a URL is reported, the parser is back in its fresh state, so URLs
/// later in the text are found exactly as if they stood alone.
pub proof fn lemma_urls_independent(p: ParserView, a: Seq<char>, b: Seq<char>)
    requires
        a.len() > 0,
        report(p, a, a.len() - 1) is Url,
    ensures
        run(p, a) == fresh(),
        forall|i: int|
            0 <= i < b.len() ==> report(p, a + b, a.len() + i) == report(fresh(), b, i),
{
    lemma_run_last(p, a);
    lemma_reports_after(p, a, b);
}

/// An illegal character discards everything before it: what follows it is
/// read as by a fresh parser.
pub proof fn lemma_illegal_char_restarts(p: ParserView, a: Seq<char>, c: char, b: Seq<char>)
    requires
        illegal_char(c),
    ensures
        report(p, a.push(c), a.len() as int) == ParserState::NoUrl,
        run(p, a.push(c)) == fresh(),
        forall|i: int|
            0 <= i < b.len() ==> report(p, a.push(c) + b, a.len() + 1 + i) == report(
                fresh(),
                b,
                i,
            ),
{
    lemma_run_last(p, a.push(c));
    assert(a.push(c).take(a.len() as int) =~= a);
    lemma_reports_after(p, a.push(c), b);
}

/// A `(` at the very end of a text, which is read first, closes nothing: it
/// is reported as no URL and the rest of the text is read as if it were absent.
pub proof fn lemma_trailing_open_paren(b: Seq<char>)
    ensures
        report(fresh(), seq!['('] + b, 0) == ParserState::NoUrl,
        forall|i: int|
            0 <= i < b.len() ==> report(fresh(), seq!['('] + b, 1 + i) == report(fresh(), b, i),
{
    let a = seq!['('];
    lemma_run_last(fresh(), a);
    assert(a.take(0) =~= Seq::<char>::empty());
    assert((a + b).take(0) =~= Seq::<char>::empty());
    assert((a + b)[0] == '(');
    lemma_reports_after(fresh(), a, b);
}

/// `s` without its surround characters (brackets and quotes), which the
/// parser may read between the letters of a scheme.
pub open spec fn strip_surrounds(s: Seq<char>) -> Seq<char>
    decreases s.len(),
{
    if s.len() == 0 {
        s
    } else if surround_char(s.last()) {
        strip_surrounds(s.drop_last())
    } else {
        strip_surrounds(s.drop_last()).push(s.last())
    }
}

/// Some recognised scheme, read backwards, occurs in `fed` once its
/// surround characters are left out.
pub open spec fn has_scheme_token(fed: Seq<char>) -> bool {
    exists|k: int, i: int|
        0 <= k < SCHEME_COUNT && 0 <= i && i + scheme_len(k) <= strip_surrounds(fed).len()
            && #[trigger] strip_surrounds(fed).subrange(i, i + scheme_len(k)) == reversed_scheme(k)
}

/// What holds of the state reached after reading `fed` from a fresh parser.
spec fn scan_inv(p: ParserView, fed: Seq<char>) -> bool {
    &&& p.progress.len() == SCHEME_COUNT
    &&& forall|j: int|
        0 <= j < p.surrounds.len() ==> #[trigger] p.surrounds[j].0 == '(' || p.surrounds[j].0
            == '[' || p.surrounds[j].0 == '\''
    &&& forall|k: int|
        0 <= k < SCHEME_COUNT ==> {
            &&& p.state != State::Scheme ==> #[trigger] p.progress[k] == 0
            &&& p.progress[k] != scheme_len(k)
            &&& p.progress[k] < scheme_len(k) ==> ends_with(
                strip_surrounds(fed),
                reversed_scheme(k).take(p.progress[k] as int),
            )
        }
}

/// The invariant holds of any state in which no scheme has been matched yet.
proof fn lemma_scan_inv_unmatched(p: ParserView, fed: Seq<char>)
    requires
        p.progress.len() == SCHEME_COUNT,
        forall|k: int| 0 <= k < SCHEME_COUNT ==> p.progress[k] == 0,
        forall|j: int|
            0 <= j < p.surrounds.len() ==> #[trigger] p.surrounds[j].0 == '(' || p.surrounds[j].0
                == '[' || p.surrounds[j].0 == '\'',
    ensures
        scan_inv(p, fed),
{
    let s = strip_surrounds(fed);
    assert forall|k: int| 0 <= k < SCHEME_COUNT implies {
        &&& p.progress[k] != scheme_len(k)
        &&& p.progress[k] < scheme_len(k) ==> ends_with(
            s,
            reversed_scheme(k).take(p.progress[k] as int),
        )
    } by {
        assert(scheme_len(k) >= 3);
        assert(s.subrange(s.len() as int, s.len() as int) =~= reversed_scheme(k).take(0));
    }
}

proof fn lemma_ends_with_push(s: Seq<char>, r: Seq<char>, m: int, c: char)
    requires
        0 <= m < r.len(),
        r[m] == c,
        ends_with(s, r.take(m)),
    ensures
        ends_with(s.push(c), r.take(m + 1)),
{
    let t = s.push(c).subrange(s.len() + 1 - (m + 1), s.len() + 1 as int);
    assert(s.subrange(s.len() - m, s.len() as int) == r.take(m));
    assert(t =~= r.take(m + 1)) by {
        assert forall|j: int| 0 <= j < m implies t[j] == r.take(m)[j] by {
            assert(t[j] == s.subrange(s.len() - m, s.len() as int)[j]);
        }
    }
}

proof fn lemma_scan_step(p: ParserView, fed: Seq<char>, c: char)
    requires
        scan_inv(p, fed),
    ensures
        scan_inv(step(p, c).0, fed.push(c)),
        step(p, c).1 is Url ==> exists|k: int|
            0 <= k < SCHEME_COUNT && ends_with(strip_surrounds(fed.push(c)), reversed_scheme(k)),
{
    let q = step(p, c).0;
    let f = fed.push(c);
    assert(f.drop_last() =~= fed);
    assert(f.last() == c);
    let m = last_match(p.surrounds, c);
    lemma_last_match(p.surrounds, c);
    assert(fresh().progress.len() == SCHEME_COUNT);
    if illegal_char(c) {
        lemma_scan_inv_unmatched(q, f);
    } else if m is Some && p.surrounds[m->0].1 + 1 < p.len + 1 {
        assert(surround_char(c));
        assert(strip_surrounds(f) == strip_surrounds(fed));
        assert forall|j: int| 0 <= j < q.surrounds.len() implies #[trigger] q.surrounds[j].0
            == '(' || q.surrounds[j].0 == '[' || q.surrounds[j].0 == '\'' by {
            if j < m->0 {
                assert(q.surrounds[j] == p.surrounds[j]);
            } else {
                assert(q.surrounds[j] == p.surrounds[j + 1]);
            }
        }
        assert(scan_inv(q, f));
    } else if m is None && (c == ')' || c == ']' || c == '\'') {
        assert(surround_char(c));
        assert(strip_surrounds(f) == strip_surrounds(fed));
        assert forall|j: int| 0 <= j < q.surrounds.len() implies #[trigger] q.surrounds[j].0
            == '(' || q.surrounds[j].0 == '[' || q.surrounds[j].0 == '\'' by {
            if j < p.surrounds.len() {
                assert(q.surrounds[j] == p.surrounds[j]);
            }
        }
        assert(scan_inv(q, f));
    } else if c == '(' || c == '[' || c == '\'' {
        lemma_scan_inv_unmatched(q, f);
    } else if p.state == State::Scheme && ascii_letter(c) {
        assert(!surround_char(c));
        assert(strip_surrounds(f) == strip_surrounds(fed).push(c));
        if completes_any(p.progress, c) {
            let k = choose|k: int| 0 <= k < SCHEME_COUNT && completes(p.progress, k, c);
            lemma_ends_with_push(
                strip_surrounds(fed),
                reversed_scheme(k),
                p.progress[k] as int,
                c,
            );
            assert(reversed_scheme(k).take(scheme_len(k)) =~= reversed_scheme(k));
            lemma_scan_inv_unmatched(q, f);
        } else {
            assert forall|k: int| 0 <= k < SCHEME_COUNT implies {
                &&& q.progress[k] != scheme_len(k)
                &&& q.progress[k] < scheme_len(k) ==> ends_with(
                    strip_surrounds(f),
                    reversed_scheme(k).take(q.progress[k] as int),
                )
            } by {
                if p.progress[k] < scheme_len(k) && reversed_scheme(k)[p.progress[k] as int] == c {
                    assert(!completes(p.progress, k, c));
                    lemma_ends_with_push(
                        strip_surrounds(fed),
                        reversed_scheme(k),
                        p.progress[k] as int,
                        c,
                    );
                }
            }
        }
    } else if p.state == State::Scheme {
        lemma_scan_inv_unmatched(q, f);
    } else {
        assert(q.progress == p.progress);
        lemma_scan_inv_unmatched(q, f);
    }
}

/// Leaving out surround characters keeps prefixes as prefixes.
proof fn lemma_strip_prefix(fed: Seq<char>, n: int)
    requires
        0 <= n <= fed.len(),
    ensures
        strip_surrounds(fed.take(n)).len() <= strip_surrounds(fed).len(),
        strip_surrounds(fed).take(strip_surrounds(fed.take(n)).len() as int) == strip_surrounds(
            fed.take(n),
        ),
    decreases fed.len(),
{
    let s = strip_surrounds(fed);
    if n == fed.len() {
        assert(fed.take(n) =~= fed);
        assert(s.take(s.len() as int) =~= s);
    } else {
        let d = fed.drop_last();
        lemma_strip_prefix(d, n);
        assert(d.take(n) =~= fed.take(n));
        let l = strip_surrounds(fed.take(n)).len() as int;
        assert(s.take(l) =~= strip_surrounds(d).take(l));
    }
}

/// The invariant holds all along a scan that starts from a fresh parser.
proof fn lemma_scan_run(fed: Seq<char>)
    ensures
        scan_inv(run(fresh(), fed), fed),
    decreases fed.len(),
{
    if fed.len() == 0 {
        assert(fresh().progress.len() == SCHEME_COUNT);
        lemma_scan_inv_unmatched(fresh(), fed);
    } else {
        let d = fed.drop_last();
        lemma_scan_run(d);
        lemma_scan_step(run(fresh(), d), d, fed.last());
        assert(d.push(fed.last()) =~= fed);
    }
}

/// A URL is only ever reported where a recognised scheme has just been read:
/// on text that holds no scheme, once its brackets and quotes are left out,
/// no URL is reported.
pub proof fn lemma_no_scheme_no_url(fed: Seq<char>)
    requires
        !has_scheme_token(fed),
    ensures
        forall|i: int| 0 <= i < fed.len() ==> !(report(fresh(), fed, i) is Url),
{
    assert forall|i: int| 0 <= i < fed.len() implies !(report(fresh(), fed, i) is Url) by {
        if report(fresh(), fed, i) is Url {
            let t = fed.take(i);
            lemma_scan_run(t);
            lemma_scan_step(run(fresh(), t), t, fed[i]);
            let k = choose|k: int|
                0 <= k < SCHEME_COUNT && ends_with(
                    strip_surrounds(t.push(fed[i])),
                    reversed_scheme(k),
                );
            assert(t.push(fed[i]) =~= fed.take(i + 1));
            lemma_strip_prefix(fed, i + 1);
            let st = strip_surrounds(fed.take(i + 1));
            let sf = strip_surrounds(fed);
            let len = scheme_len(k);
            assert(sf.subrange(st.len() - len, st.len() as int) =~= st.subrange(
                st.len() - len,
                st.len() as int,
            ));
            let w = st.len() - len;
            assert(sf.subrange(w, w + scheme_len(k)) == reversed_scheme(k));
            assert(has_scheme_token(fed));
        }
    }
}

/// `q` is `p` with one more pending `)` underneath everything, opened one
/// character earlier.
spec fn wrapped(p: ParserView, q: ParserView) -> bool {
    &&& q.state == p.state
    &&& q.progress == p.progress
    &&& q.len == p.len + 1
    &&& q.surrounds.len() == p.surrounds.len() + 1
    &&& q.surrounds[0] == ('(', 1usize)
    &&& forall|j: int|
        #![trigger q.surrounds[j]]
        1 <= j < q.surrounds.len() ==> q.surrounds[j].0 == p.surrounds[j - 1].0
            && q.surrounds[j].1 == p.surrounds[j - 1].1 + 1
}

proof fn lemma_last_match_wrapped(s: Seq<(char, usize)>, t: Seq<(char, usize)>, c: char)
    requires
        t.len() == s.len() + 1,
        t[0].0 == '(',
        forall|j: int| 1 <= j < t.len() ==> #[trigger] t[j].0 == s[j - 1].0,
        c != '(' || last_match(s, c) is Some,
    ensures
        last_match(t, c) == match last_match(s, c) {
            Some(m) => Some(m + 1),
            None => None,
        },
    decreases s.len(),
{
    if s.len() > 0 {
        assert(t.last().0 == s.last().0);
        if s.last().0 != c {
            let s1 = s.drop_last();
            let t1 = t.drop_last();
            assert forall|j: int| 1 <= j < t1.len() implies #[trigger] t1[j].0 == s1[j - 1].0 by {
                assert(t1[j] == t[j]);
            }
            lemma_last_match_wrapped(s1, t1, c);
        }
    } else {
        assert(last_match(t.drop_last(), c) is None);
    }
}

proof fn lemma_wrapped_step(p: ParserView, q: ParserView, c: char)
    requires
        wrapped(p, q),
        well_formed_len(p),
        p.len + 2 < usize::MAX,
        c != '(' || last_match(p.surrounds, c) is Some,
    ensures
        step(q, c).1 == step(p, c).1,
        step(q, c).0 == step(p, c).0 || wrapped(step(p, c).0, step(q, c).0),
{
    lemma_last_match_wrapped(p.surrounds, q.surrounds, c);
    lemma_last_match(p.surrounds, c);
    let m = last_match(p.surrounds, c);
    let (p1, r) = step(p, c);
    let (q1, r1) = step(q, c);
    if illegal_char(c) {
    } else if m is Some && p.surrounds[m->0].1 + 1 < p.len + 1 {
        let i = m->0;
        assert(q.surrounds[i + 1].1 == p.surrounds[i].1 + 1);
        assert forall|j: int|
            #![trigger q1.surrounds[j]]
            1 <= j < q1.surrounds.len() implies q1.surrounds[j].0 == p1.surrounds[j - 1].0
                && q1.surrounds[j].1 == p1.surrounds[j - 1].1 + 1 by {
            if j <= i {
                assert(q1.surrounds[j] == q.surrounds[j]);
                assert(p1.surrounds[j - 1] == p.surrounds[j - 1]);
            } else {
                assert(q1.surrounds[j] == q.surrounds[j + 1]);
                assert(p1.surrounds[j - 1] == p.surrounds[j]);
            }
        }
        assert(q1.surrounds[0] == q.surrounds[0]);
        assert(wrapped(p1, q1));
    } else if m is None && (c == ')' || c == ']' || c == '\'') {
        assert forall|j: int|
            #![trigger q1.surrounds[j]]
            1 <= j < q1.surrounds.len() implies q1.surrounds[j].0 == p1.surrounds[j - 1].0
                && q1.surrounds[j].1 == p1.surrounds[j - 1].1 + 1 by {
            if j < q.surrounds.len() {
                assert(q1.surrounds[j] == q.surrounds[j]);
                assert(p1.surrounds[j - 1] == p.surrounds[j - 1]);
            }
        }
        assert(q1.surrounds[0] == q.surrounds[0]);
        assert(wrapped(p1, q1));
    } else if c == '(' || c == '[' || c == '\'' {
    } else if (p.state == State::Default && terminator_char(c)) || (p.state == State::Scheme
        && !ascii_letter(c)) {
    } else if p.state == State::Scheme && completes_any(p.progress, c) {
        if p.surrounds.len() > 0 {
            assert(q.surrounds.last() == q.surrounds[p.surrounds.len() as int]);
        }
    } else {
        assert(wrapped(p1, q1));
    }
}

/// The count of a state reached by reading never falls below its pending positions.
spec fn well_formed_len(p: ParserView) -> bool {
    forall|j: int| #![trigger p.surrounds[j]] 0 <= j < p.surrounds.len() ==> p.surrounds[j].1 <= p.len
}


proof fn lemma_step_len(p: ParserView, c: char)
    requires
        well_formed_len(p),
        p.len < usize::MAX,
    ensures
        well_formed_len(step(p, c).0),
        step(p, c).0.len <= p.len + 1,
{
    let m = last_match(p.surrounds, c);
    lemma_last_match(p.surrounds, c);
    let p1 = step(p, c).0;
    if !illegal_char(c) && m is Some && p.surrounds[m->0].1 + 1 < p.len + 1 {
        assert forall|j: int| #![trigger p1.surrounds[j]] 0 <= j < p1.surrounds.len() implies p1.surrounds[j].1 <= p1.len by {
            if j < m->0 {
                assert(p1.surrounds[j] == p.surrounds[j]);
            } else {
                assert(p1.surrounds[j] == p.surrounds[j + 1]);
            }
        }
    } else if !illegal_char(c) && m is None && (c == ')' || c == ']' || c == '\'') {
        assert forall|j: int| #![trigger p1.surrounds[j]] 0 <= j < p1.surrounds.len() implies p1.surrounds[j].1 <= p1.len by {
            if j < p.surrounds.len() {
                assert(p1.surrounds[j] == p.surrounds[j]);
            }
        }
    }
}

proof fn lemma_parenthesized_run(fed: Seq<char>, n: int)
    requires
        0 <= n <= fed.len(),
        fed.len() + 2 < usize::MAX,
        forall|i: int|
            0 <= i < fed.len() && fed[i] == '(' ==> last_match(
                run(fresh(), fed.take(i)).surrounds,
                '(',
            ) is Some,
    ensures
        ({
            let p = run(fresh(), fed.take(n));
            let q = run(fresh(), (seq![')'] + fed).take(n + 1));
            &&& well_formed_len(p)
            &&& p.len <= n
            &&& q == p || wrapped(p, q)
        }),
    decreases n,
{
    let w = seq![')'] + fed;
    if n == 0 {
        assert(fed.take(0) =~= Seq::<char>::empty());
        assert(w.take(1).drop_last() =~= Seq::<char>::empty());
        assert(w.take(1).last() == ')');
        let q = run(fresh(), w.take(1));
        assert(q.surrounds =~= seq![('(', 1usize)]);
    } else {
        lemma_parenthesized_run(fed, n - 1);
        let p = run(fresh(), fed.take(n - 1));
        let q = run(fresh(), w.take(n));
        let c = fed[n - 1];
        assert(fed.take(n).drop_last() =~= fed.take(n - 1));
        assert(w.take(n + 1).drop_last() =~= w.take(n));
        assert(w.take(n + 1).last() == c);
        lemma_step_len(p, c);
        if q != p {
            lemma_wrapped_step(p, q, c);
        }
    }
}

/// Wrapping the text of a URL in parentheses changes nothing that is reported
/// on it: the closing parenthesis, read first, is absorbed, and every later
/// report is the same as without it. This holds where each `(` of the text
/// closes a `)` of the text that is still pending; any other `(` would close
/// the wrapping one instead.
pub proof fn lemma_parenthesized(fed: Seq<char>)
    requires
        fed.len() + 2 < usize::MAX,
        forall|i: int|
            0 <= i < fed.len() && fed[i] == '(' ==> last_match(
                run(fresh(), fed.take(i)).surrounds,
                '(',
            ) is Some,
    ensures
        report(fresh(), seq![')'] + fed, 0) == ParserState::MaybeUrl,
        forall|i: int|
            0 <= i < fed.len() ==> report(fresh(), seq![')'] + fed, 1 + i) == report(
                fresh(),
                fed,
                i,
            ),
{
    let w = seq![')'] + fed;
    assert(w.take(0) =~= Seq::<char>::empty());
    assert(w[0] == ')');
    assert forall|i: int| 0 <= i < fed.len() implies report(fresh(), w, 1 + i) == report(
        fresh(),
        fed,
        i,
    ) by {
        lemma_parenthesized_run(fed, i);
        let p = run(fresh(), fed.take(i));
        let q = run(fresh(), w.take(i + 1));
        assert(w[1 + i] == fed[i]);
        if q != p {
            lemma_wrapped_step(p, q, fed[i]);
        }
    }
}

} // verus!
