//! Keeping the tokens of a stream as they pass.

use vstd::prelude::*;

use crate::text::str_copy;

verus! {

/// A token of a stream.
pub struct Token {
    /// Byte offset of the start in the original text.
    pub offset_from: usize,
    /// Byte offset of the end in the original text.
    pub offset_to: usize,
    /// Position among the tokens.
    pub position: usize,
    /// The text.
    pub text: String,
    /// Positions the token takes.
    pub position_length: usize,
}

/// What is kept of a token.
#[derive(Debug, Clone)]
pub struct CapturedToken {
    /// The text.
    pub text: String,
    /// Byte offset of the start in the original text.
    pub offset_from: usize,
    /// Byte offset of the end in the original text.
    pub offset_to: usize,
}

/// Whether a captured token is what is kept of a token.
pub open spec fn is_kept(c: CapturedToken, t: Token) -> bool {
    c.text@ == t.text@ && c.offset_from == t.offset_from && c.offset_to == t.offset_to
}

/// Whether the captured tokens are those from `from` up to `to`.
pub open spec fn are_kept(captured: Seq<CapturedToken>, tokens: Seq<Token>, from: int, to: int) -> bool {
    &&& 0 <= from <= to <= tokens.len()
    &&& captured.len() == to - from
    &&& forall|i: int| 0 <= i < captured.len() ==> is_kept(#[trigger] captured[i], tokens[from + i])
}

/// Passes the tokens of a stream on unchanged and keeps each as it passes.
pub struct SfxTokenInterceptor {
    inner: Vec<Token>,
    pos: usize,
    taken: Ghost<int>,
    as_passed: Ghost<Seq<Token>>,
    captured: Vec<CapturedToken>,
}

impl SfxTokenInterceptor {
    /// The tokens kept are those that have passed since they were last taken.
    pub closed spec fn wf(&self) -> bool {
        &&& self.pos <= self.inner@.len()
        &&& self.as_passed@.len() == self.pos
        &&& are_kept(self.captured@, self.as_passed@, self.taken@, self.pos as int)
    }

    /// The tokens of the stream as they are now.
    pub closed spec fn tokens(&self) -> Seq<Token> {
        self.inner@
    }

    /// How many tokens have passed.
    pub closed spec fn passed(&self) -> int {
        self.pos as int
    }

    /// The tokens that have passed, each as it was when it passed.
    pub closed spec fn as_passed(&self) -> Seq<Token> {
        self.as_passed@
    }

    /// How many of these were taken.
    pub closed spec fn taken(&self) -> int {
        self.taken@
    }

    /// The stream of these tokens.
    pub fn wrap(inner: Vec<Token>) -> (r: Self)
        ensures
            r.wf(),
            r.tokens() == inner@,
            r.passed() == 0,
            r.as_passed() == Seq::<Token>::empty(),
            r.taken() == 0,
    {
        SfxTokenInterceptor {
            inner,
            pos: 0,
            taken: Ghost(0),
            as_passed: Ghost(Seq::empty()),
            captured: Vec::new(),
        }
    }

    /// Goes on to the next token and keeps it; false behind the last.
    pub fn advance(&mut self) -> (r: bool)
        requires
            old(self).wf(),
        ensures
            final(self).wf(),
            final(self).tokens() == old(self).tokens(),
            final(self).taken() == old(self).taken(),
            r == (old(self).passed() < old(self).tokens().len()),
            final(self).passed() == old(self).passed() + (if r {
                1int
            } else {
                0int
            }),
            final(self).as_passed() == if r {
                old(self).as_passed().push(old(self).tokens()[old(self).passed()])
            } else {
                old(self).as_passed()
            },
    {
        if self.pos < self.inner.len() {
            let t = &self.inner[self.pos];
            let kept = CapturedToken {
                text: str_copy(t.text.as_str()),
                offset_from: t.offset_from,
                offset_to: t.offset_to,
            };
            self.as_passed = Ghost(self.as_passed@.push(*t));
            self.captured.push(kept);
            self.pos = self.pos + 1;
            true
        } else {
            false
        }
    }

    /// The token that passed last.
    pub fn token(&self) -> (r: &Token)
        requires
            self.wf(),
            self.passed() > 0,
        ensures
            *r == self.tokens()[self.passed() - 1],
    {
        &self.inner[self.pos - 1]
    }

    /// The token that passed last, to be changed; what was kept of it stays.
    pub fn token_mut(&mut self) -> (r: &mut Token)
        requires
            old(self).wf(),
            old(self).passed() > 0,
        ensures
            *r == old(self).tokens()[old(self).passed() - 1],
            final(self).wf(),
            final(self).tokens() == old(self).tokens().update(old(self).passed() - 1, *final(r)),
            final(self).passed() == old(self).passed(),
            final(self).as_passed() == old(self).as_passed(),
            final(self).taken() == old(self).taken(),
    {
        &mut self.inner[self.pos - 1]
    }

    /// Takes the tokens kept so far.
    pub fn take_captured(&mut self) -> (r: Vec<CapturedToken>)
        requires
            old(self).wf(),
        ensures
            final(self).wf(),
            final(self).tokens() == old(self).tokens(),
            final(self).passed() == old(self).passed(),
            final(self).as_passed() == old(self).as_passed(),
            final(self).taken() == old(self).passed(),
            are_kept(r@, old(self).as_passed(), old(self).taken(), old(self).passed()),
    {
        let mut out: Vec<CapturedToken> = Vec::new();
        std::mem::swap(&mut out, &mut self.captured);
        self.taken = Ghost(self.pos as int);
        out
    }
}

} // verus!
