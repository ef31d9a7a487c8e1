//! The reverse URL parser: a state machine fed one character at a time.
use vstd::prelude::*;

use crate::chars::{
    ascii_letter, counterpart, illegal_char, is_illegal, surround_character, surround_end,
    surround_pair, surround_start, terminator_char, SURROUND_COUNT,
};
use crate::scheme::{reversed_scheme, scheme, scheme_text, SCHEME_COUNT};

verus! {

broadcast use vstd::array::group_array_axioms;

/// Stages of recognising the backwards shape `path`, `//`, `:`, `scheme`.
#[derive(Clone, Copy, Debug, PartialEq, Eq, Structural)]
pub enum State {
    /// Nothing has been read yet.
    Default,
    /// Reading the part of the URL after its scheme.
    Path,
    /// A `/` has just been read.
    SchemeFirstSlash,
    /// `//` has just been read.
    SchemeSecondSlash,
    /// `://` has been read; reading the scheme.
    Scheme,
}

impl Default for State {
    fn default() -> (r: Self)
        ensures
            r == State::Default,
    {
        State::Default
    }
}

/// What the parser reports after each character.
#[derive(Copy, Clone, Debug, PartialEq, Eq, Structural, PartialOrd, Ord, Hash)]
pub enum ParserState {
    /// A URL with this many characters starts at the character just read.
    Url(usize),
    /// The characters read so far might belong to a URL.
    MaybeUrl,
    /// No URL is in progress.
    NoUrl,
}

/// State machine that finds URLs in text read **in reverse order**.
pub struct Parser {
    scheme_indices: [u8; 8],
    state: State,
    surround_states: Vec<(char, usize)>,
    len: usize,
}

/// The abstract state of a [`Parser`].
pub struct ParserView {
    /// Stage of the structural automaton.
    pub state: State,
    /// For each scheme, how many of its characters (from the end) have been
    /// matched; more than the scheme's length means it cannot match any more.
    pub progress: Seq<u8>,
    /// Pending surrounds: the character that would close each one, and the
    /// character count when it was opened.
    pub surrounds: Seq<(char, usize)>,
    /// Characters read since the last reset.
    pub len: nat,
}

/// The state of a new or reset parser.
pub open spec fn fresh() -> ParserView {
    ParserView {
        state: State::Default,
        progress: Seq::new(SCHEME_COUNT as nat, |i: int| 0u8),
        surrounds: Seq::empty(),
        len: 0,
    }
}

/// Every pending surround was opened no later than the current count.
pub open spec fn well_formed(p: ParserView) -> bool {
    &&& p.progress.len() == SCHEME_COUNT
    &&& forall|i: int| 0 <= i < p.surrounds.len() ==> p.surrounds[i].1 <= p.len
}

/// Index of the most recent pending surround that `c` closes.
pub open spec fn last_match(s: Seq<(char, usize)>, c: char) -> Option<int>
    decreases s.len(),
{
    if s.len() == 0 {
        None
    } else if s.last().0 == c {
        Some(s.len() - 1)
    } else {
        last_match(s.drop_last(), c)
    }
}

/// What `last_match` finds: the last entry closed by `c`, or none.
pub proof fn lemma_last_match(s: Seq<(char, usize)>, c: char)
    ensures
        match last_match(s, c) {
            Some(i) => 0 <= i < s.len() && s[i].0 == c && forall|j: int|
                i < j < s.len() ==> s[j].0 != c,
            None => forall|j: int| 0 <= j < s.len() ==> s[j].0 != c,
        },
    decreases s.len(),
{
    if s.len() > 0 && s.last().0 != c {
        lemma_last_match(s.drop_last(), c);
        assert(forall|j: int| 0 <= j < s.len() - 1 ==> s.drop_last()[j] == s[j]);
    }
}

/// Count recorded by the most recent pending surround, or zero.
pub open spec fn pending_offset(s: Seq<(char, usize)>) -> nat {
    if s.len() == 0 {
        0
    } else {
        s.last().1 as nat
    }
}

/// Length of the scheme with index `k`.
pub open spec fn scheme_len(k: int) -> int {
    scheme_text(k).len() as int
}

/// Reading `c` completes the scheme with index `k`.
pub open spec fn completes(progress: Seq<u8>, k: int, c: char) -> bool {
    &&& progress[k] < scheme_len(k)
    &&& reversed_scheme(k)[progress[k] as int] == c
    &&& progress[k] + 1 == scheme_len(k)
}

/// Reading `c` completes some scheme.
pub open spec fn completes_any(progress: Seq<u8>, c: char) -> bool {
    exists|k: int| 0 <= k < SCHEME_COUNT && completes(progress, k, c)
}

/// Scheme progress after reading `c`: each live scheme either matches one
/// more character or fails for good.
pub open spec fn advance_progress(progress: Seq<u8>, c: char) -> Seq<u8> {
    Seq::new(
        progress.len(),
        |k: int|
            if progress[k] >= scheme_len(k) {
                progress[k]
            } else if reversed_scheme(k)[progress[k] as int] == c {
                (progress[k] + 1) as u8
            } else {
                (scheme_len(k) + 1) as u8
            },
    )
}

/// One transition of the structural automaton on `c`; `p.len` already counts `c`.
pub open spec fn structural_step(p: ParserView, c: char) -> (ParserView, ParserState) {
    match p.state {
        State::Default => if terminator_char(c) {
            (fresh(), ParserState::NoUrl)
        } else {
            (ParserView { state: State::Path, ..p }, ParserState::MaybeUrl)
        },
        State::Path => (
            if c == '/' {
                ParserView { state: State::SchemeFirstSlash, ..p }
            } else {
                p
            },
            ParserState::MaybeUrl,
        ),
        State::SchemeFirstSlash => (
            ParserView {
                state: if c == '/' {
                    State::SchemeSecondSlash
                } else {
                    State::Path
                },
                ..p
            },
            ParserState::MaybeUrl,
        ),
        State::SchemeSecondSlash => (
            ParserView {
                state: if c == ':' {
                    State::Scheme
                } else {
                    State::Path
                },
                ..p
            },
            ParserState::MaybeUrl,
        ),
        State::Scheme => if !ascii_letter(c) {
            (fresh(), ParserState::NoUrl)
        } else if completes_any(p.progress, c) {
            (fresh(), ParserState::Url((p.len - pending_offset(p.surrounds)) as usize))
        } else {
            (
                ParserView { progress: advance_progress(p.progress, c), ..p },
                ParserState::MaybeUrl,
            )
        },
    }
}

/// The parser's state and report after reading `c` in state `p`.
pub open spec fn step(p: ParserView, c: char) -> (ParserView, ParserState) {
    let counted = ParserView { len: p.len + 1, ..p };
    let m = last_match(p.surrounds, c);
    if illegal_char(c) {
        (fresh(), ParserState::NoUrl)
    } else if m is Some && p.surrounds[m->0].1 + 1 < counted.len {
        (ParserView { surrounds: p.surrounds.remove(m->0), ..counted }, ParserState::MaybeUrl)
    } else if m is None && surround_start(c) {
        (
            ParserView {
                surrounds: p.surrounds.push((counterpart(c), counted.len as usize)),
                ..counted
            },
            ParserState::MaybeUrl,
        )
    } else if surround_end(c) {
        (fresh(), ParserState::NoUrl)
    } else {
        structural_step(counted, c)
    }
}

/// Returns the index of the most recent entry of `v` whose character is `c`.
fn find_last_match(v: &Vec<(char, usize)>, c: char) -> (r: Option<usize>)
    ensures
        match r {
            Some(i) => last_match(v@, c) == Some(i as int),
            None => last_match(v@, c) is None,
        },
{
    let mut i: usize = v.len();
    assert(v@.take(i as int) =~= v@);
    while i > 0
        invariant
            i <= v.len(),
            last_match(v@, c) == last_match(v@.take(i as int), c),
        decreases i,
    {
        assert(v@.take(i as int).drop_last() =~= v@.take(i - 1));
        if v[i - 1].0 == c {
            return Some(i - 1);
        }
        i -= 1;
    }
    None
}

impl Default for Parser {
    fn default() -> (r: Self)
        ensures
            r@ == fresh(),
            r.wf(),
    {
        Parser::new()
    }
}

impl View for Parser {
    type V = ParserView;

    closed spec fn view(&self) -> ParserView {
        ParserView {
            state: self.state,
            progress: self.scheme_indices@,
            surrounds: self.surround_states@,
            len: self.len as nat,
        }
    }
}

impl Parser {
    /// The parser's internal invariant.
    pub open spec fn wf(&self) -> bool {
        well_formed(self@)
    }

    /// Creates a new URL parser.
    pub fn new() -> (r: Self)
        ensures
            r@ == fresh(),
            r.wf(),
    {
        let r = Parser {
            scheme_indices: [0u8; 8],
            state: State::Default,
            surround_states: Vec::new(),
            len: 0,
        };
        assert(r@.progress =~= fresh().progress);
        assert(r@.surrounds =~= fresh().surrounds);
        r
    }

    /// Discards everything read so far.
    pub fn reset(&mut self)
        ensures
            final(self)@ == fresh(),
            final(self).wf(),
    {
        self.surround_states.clear();
        self.scheme_indices = [0u8; 8];
        self.state = State::Default;
        self.len = 0;
        assert(self@.progress =~= fresh().progress);
        assert(self@.surrounds =~= fresh().surrounds);
    }

    /// Advances the parser by one character, read in reverse order.
    pub fn advance(&mut self, c: char) -> (r: ParserState)
        requires
            old(self).wf(),
            old(self)@.len < usize::MAX,
        ensures
            final(self).wf(),
            (final(self)@, r) == step(old(self)@, c),
    {
        self.len = self.len + 1;
        let ghost counted = self@;

        if is_illegal(c) {
            self.reset();
            return ParserState::NoUrl;
        }

        // Is this the closing member of a pending surround?
        let m = find_last_match(&self.surround_states, c);
        proof {
            lemma_last_match(old(self)@.surrounds, c);
        }
        if let Some(index) = m {
            // Resolve the surround, unless it would enclose nothing
            if self.surround_states[index].1 + 1 < self.len {
                self.surround_states.remove(index);
                assert(forall|j: int|
                    0 <= j < self@.surrounds.len() ==> self@.surrounds[j] == if j < index {
                        counted.surrounds[j]
                    } else {
                        counted.surrounds[j + 1]
                    });
                return ParserState::MaybeUrl;
            }
        }

        // Set aside surround characters that wrap the URL
        let mut i: usize = 0;
        while i < SURROUND_COUNT
            invariant
                i <= SURROUND_COUNT,
                self@ == counted,
                counted == (ParserView { len: old(self)@.len + 1, ..old(self)@ }),
                well_formed(counted),
                !illegal_char(c),
                m is Some ==> last_match(old(self)@.surrounds, c) == Some(m->0 as int)
                    && !(old(self)@.surrounds[m->0 as int].1 + 1 < counted.len),
                m is None ==> last_match(old(self)@.surrounds, c) is None,
                forall|j: int|
                    0 <= j < i ==> !(m is None && surround_pair(j).start_spec() == c)
                        && surround_pair(j).end_spec() != c,
            decreases SURROUND_COUNT - i,
        {
            let surround = surround_character(i);
            // Remember an unmatched surround, to be closed later
            if m.is_none() && *surround.start() == c {
                self.surround_states.push((*surround.end(), self.len));
                assert(forall|j: int|
                    0 <= j < counted.surrounds.len() ==> self@.surrounds[j]
                        == counted.surrounds[j]);
                return ParserState::MaybeUrl;
            }
            // A closing member with nothing to close ends the attempt
            if *surround.end() == c {
                self.reset();
                return ParserState::NoUrl;
            }
            i += 1;
        }
        assert(!(m is None && surround_start(c)) && !surround_end(c)) by {
            assert(surround_pair(0).start_spec() == ')' && surround_pair(0).end_spec() == '(');
            assert(surround_pair(1).start_spec() == ']' && surround_pair(1).end_spec() == '[');
            assert(surround_pair(2).start_spec() == '\'' && surround_pair(2).end_spec() == '\'');
        }

        match self.state {
            State::Default => self.advance_default(c),
            State::Path => self.advance_path(c),
            State::SchemeFirstSlash => self.advance_scheme_first_slash(c),
            State::SchemeSecondSlash => self.advance_scheme_second_slash(c),
            State::Scheme => {
                if let Some(length) = self.advance_scheme(c) {
                    self.reset();
                    return ParserState::Url(length);
                }
            },
        }

        if self.len == 0 {
            ParserState::NoUrl
        } else {
            ParserState::MaybeUrl
        }
    }

    fn advance_default(&mut self, c: char)
        requires
            old(self).wf(),
            old(self)@.state == State::Default,
        ensures
            final(self).wf(),
            final(self)@ == structural_step(old(self)@, c).0,
    {
        match c {
            '.' | ',' | ':'..=';' | '?' | '!' | '(' => self.reset(),
            _ => {
                self.state = State::Path;
                assert(self@.surrounds == old(self)@.surrounds);
            },
        }
    }

    fn advance_path(&mut self, c: char)
        requires
            old(self).wf(),
            old(self)@.state == State::Path,
        ensures
            final(self).wf(),
            final(self)@ == structural_step(old(self)@, c).0,
    {
        if c == '/' {
            self.state = State::SchemeFirstSlash;
        }
    }

    fn advance_scheme_first_slash(&mut self, c: char)
        requires
            old(self).wf(),
            old(self)@.state == State::SchemeFirstSlash,
        ensures
            final(self).wf(),
            final(self)@ == structural_step(old(self)@, c).0,
    {
        if c == '/' {
            self.state = State::SchemeSecondSlash;
        } else {
            self.state = State::Path;
        }
        assert(self@.surrounds == old(self)@.surrounds);
    }

    fn advance_scheme_second_slash(&mut self, c: char)
        requires
            old(self).wf(),
            old(self)@.state == State::SchemeSecondSlash,
        ensures
            final(self).wf(),
            final(self)@ == structural_step(old(self)@, c).0,
    {
        if c == ':' {
            self.state = State::Scheme;
        } else {
            self.state = State::Path;
        }
        assert(self@.surrounds == old(self)@.surrounds);
    }

    /// Matches `c` against every live scheme; returns the URL's length when
    /// a scheme is complete.
    fn advance_scheme(&mut self, c: char) -> (r: Option<usize>)
        requires
            old(self).wf(),
            old(self)@.state == State::Scheme,
        ensures
            !ascii_letter(c) ==> r is None && final(self)@ == fresh() && final(self).wf(),
            ascii_letter(c) && completes_any(old(self)@.progress, c) ==> r == Some(
                (old(self)@.len - pending_offset(old(self)@.surrounds)) as usize,
            ),
            ascii_letter(c) && !completes_any(old(self)@.progress, c) ==> r is None
                && final(self).wf() && final(self)@ == (ParserView {
                progress: advance_progress(old(self)@.progress, c),
                ..old(self)@
            }),
    {
        match c {
            'a'..='z' | 'A'..='Z' => {
                let mut k: usize = 0;
                while k < SCHEME_COUNT
                    invariant
                        k <= SCHEME_COUNT,
                        ascii_letter(c),
                        old(self).wf(),
                        self.state == old(self).state,
                        self.len == old(self).len,
                        self.surround_states == old(self).surround_states,
                        forall|j: int|
                            0 <= j < k ==> self.scheme_indices@[j] == advance_progress(
                                old(self)@.progress,
                                c,
                            )[j] && !completes(old(self)@.progress, j, c),
                        forall|j: int|
                            k <= j < SCHEME_COUNT ==> self.scheme_indices@[j]
                                == old(self)@.progress[j],
                    decreases SCHEME_COUNT - k,
                {
                    let s = scheme(k);
                    let len = s.unicode_len();
                    let index = self.scheme_indices[k];
                    if (index as usize) < len {
                        if s.get_char(len - 1 - index as usize) != c {
                            self.scheme_indices[k] = (len + 1) as u8;
                        } else {
                            self.scheme_indices[k] = index + 1;
                        }
                        // No scheme ends with another, so the first complete
                        // scheme is the only one
                        assert(len == scheme_len(k as int));
                        assert(reversed_scheme(k as int)[index as int] == scheme_text(k as int)[len - 1 - index]);
                        if self.scheme_indices[k] as usize == len {
                            assert(completes(old(self)@.progress, k as int, c));
                            // Leave out the pending surrounds that were never closed
                            let n = self.surround_states.len();
                            if n > 0 {
                                self.len = self.len - self.surround_states[n - 1].1;
                            }
                            return Some(self.len);
                        }
                    }
                    k += 1;
                }
                assert(self@.progress =~= advance_progress(old(self)@.progress, c));
                assert forall|j: int| 0 <= j < SCHEME_COUNT implies !completes(
                    old(self)@.progress,
                    j,
                    c,
                ) by {
                    assert(self.scheme_indices@[j] == advance_progress(old(self)@.progress, c)[j]);
                }
            },
            _ => self.reset(),
        }
        None
    }

    /// Number of characters read since the last reset.
    pub fn consumed(&self) -> (r: usize)
        ensures
            r == self@.len,
    {
        self.len
    }

    /// The stage of the structural automaton.
    pub fn state(&self) -> (r: State)
        ensures
            r == self@.state,
    {
        self.state
    }

    /// How far each scheme has been matched.
    pub fn scheme_indices(&self) -> (r: [u8; 8])
        ensures
            r@ == self@.progress,
    {
        self.scheme_indices
    }
}

} // verus!
