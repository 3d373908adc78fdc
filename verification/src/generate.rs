//! The order of events when text is generated: first every token of the prompt is passed through
//! the model, then tokens are chosen one by one, and each is passed through the model in turn.

use crate::gguf::{GGUFFile, Value};
use vstd::prelude::*;
use vstd::slice::slice_to_vec;

verus! {

/// What is to be done next.
#[derive(Debug, PartialEq, Eq)]
pub enum Action {
    /// Pass the token at this position through the model.
    Feed(usize),
    /// Choose a token from the logits of the last pass.
    Choose,
    /// Nothing.
    Stop,
}

/// The state of a generation: the tokens of the prompt and those chosen since, how many of them
/// have been passed through the model, how many more may be chosen, and the token that ends the
/// text.
pub struct Generation {
    ids: Vec<u32>,
    fed: usize,
    left: usize,
    eos: Option<u32>,
    ended: bool,
}

impl Generation {
    /// The tokens so far.
    pub closed spec fn tokens(&self) -> Seq<u32> {
        self.ids@
    }

    /// How many tokens have been passed through the model.
    pub closed spec fn passed(&self) -> nat {
        self.fed as nat
    }

    /// How many more tokens may be chosen.
    pub closed spec fn budget(&self) -> nat {
        self.left as nat
    }

    /// The token that ends the text.
    pub closed spec fn end_token(&self) -> Option<u32> {
        self.eos
    }

    /// Whether the token that ends the text has been chosen.
    pub closed spec fn over(&self) -> bool {
        self.ended
    }

    /// No more tokens have been passed than there are.
    pub open spec fn wf(&self) -> bool {
        self.passed() <= self.tokens().len()
    }

    /// What is to be done next.
    pub open spec fn next(&self) -> Action {
        if self.passed() < self.tokens().len() {
            Action::Feed(self.passed() as usize)
        } else if self.over() || self.budget() == 0 {
            Action::Stop
        } else {
            Action::Choose
        }
    }

    /// An upper bound on the number of events that are left.
    pub open spec fn remaining(&self) -> nat {
        2 * self.budget() + (self.tokens().len() - self.passed()) as nat + if self.over() {
            0nat
        } else {
            1nat
        }
    }

    /// The start of a generation of at most `max_tokens` tokens behind a prompt.
    pub fn new(prompt: &[u32], max_tokens: usize, eos: Option<u32>) -> (r: Self)
        ensures
            r.wf(),
            r.tokens() == prompt@,
            r.passed() == 0,
            r.budget() == max_tokens,
            r.end_token() == eos,
            !r.over(),
    {
        Generation { ids: slice_to_vec(prompt), fed: 0, left: max_tokens, eos, ended: false }
    }

    /// The tokens so far.
    pub fn ids(&self) -> (r: &[u32])
        ensures
            r@ == self.tokens(),
    {
        self.ids.as_slice()
    }

    /// What is to be done next.
    pub fn action(&self) -> (r: Action)
        requires
            self.wf(),
        ensures
            r == self.next(),
    {
        if self.fed < self.ids.len() {
            Action::Feed(self.fed)
        } else if self.ended || self.left == 0 {
            Action::Stop
        } else {
            Action::Choose
        }
    }

    /// The token that was due has been passed through the model.
    pub open spec fn feeds(before: &Self, after: &Self) -> bool {
        &&& after.wf()
        &&& after.passed() == before.passed() + 1
        &&& after.tokens() == before.tokens()
        &&& after.budget() == before.budget()
        &&& after.end_token() == before.end_token()
        &&& after.over() == before.over()
    }

    /// A token has been chosen: if it ends the text nothing more is to be done, else it is
    /// appended.
    pub open spec fn accepts(before: &Self, id: u32, after: &Self) -> bool {
        &&& after.wf()
        &&& after.passed() == before.passed()
        &&& after.end_token() == before.end_token()
        &&& if before.end_token() == Some(id) {
            &&& after.over()
            &&& after.tokens() == before.tokens()
            &&& after.budget() == before.budget()
        } else {
            &&& !after.over()
            &&& after.tokens() == before.tokens().push(id)
            &&& after.budget() == before.budget() - 1
        }
    }

    /// What was due has been done; `id` is the token that was chosen, if one was.
    pub open spec fn steps(before: &Self, id: u32, after: &Self) -> bool {
        match before.next() {
            Action::Feed(_) => Self::feeds(before, after),
            Action::Choose => Self::accepts(before, id, after),
            Action::Stop => false,
        }
    }

    /// Notes that the token that was due has been passed through the model.
    pub fn feed(&mut self)
        requires
            old(self).wf(),
            old(self).next() is Feed,
        ensures
            Self::feeds(old(self), final(self)),
    {
        assert(self.ids.len() == self.ids@.len());
        self.fed = self.fed + 1;
    }

    /// Notes that a token has been chosen. Unless it ends the text it is returned, for its text
    /// to be shown.
    pub fn accept(&mut self, id: u32) -> (r: Option<u32>)
        requires
            old(self).wf(),
            old(self).next() is Choose,
        ensures
            Self::accepts(old(self), id, final(self)),
            r == if old(self).end_token() == Some(id) {
                None
            } else {
                Some(id)
            },
    {
        let ends = match self.eos {
            Some(eos) => eos == id,
            None => false,
        };
        if ends {
            self.ended = true;
            None
        } else {
            self.ids.push(id);
            self.left = self.left - 1;
            Some(id)
        }
    }
}

/// A generation has gone from a prompt to its present state.
pub open spec fn reached(g: Generation, prompt: Seq<u32>, max_tokens: nat) -> bool {
    &&& g.wf()
    &&& prompt.len() <= g.tokens().len()
    &&& g.tokens().take(prompt.len() as int) == prompt
    &&& g.tokens().len() - prompt.len() + g.budget() == max_tokens
    &&& forall|i: int|
        prompt.len() <= i < g.tokens().len() ==> g.end_token() != Some(#[trigger] g.tokens()[i])
}

/// A generation starts with its prompt.
pub proof fn law_generation_starts(g: Generation, prompt: Seq<u32>, max_tokens: nat)
    requires
        g.wf(),
        g.tokens() == prompt,
        g.budget() == max_tokens,
    ensures
        reached(g, prompt, max_tokens),
{
    assert(prompt.take(prompt.len() as int) =~= prompt);
}

/// In every state of a generation the tokens are those of the prompt and behind them at most
/// `max_tokens` more, none of which ends the text.
pub proof fn law_generation_keeps(
    g: Generation,
    prompt: Seq<u32>,
    max_tokens: nat,
    id: u32,
    after: Generation,
)
    requires
        reached(g, prompt, max_tokens),
        Generation::steps(&g, id, &after),
    ensures
        reached(after, prompt, max_tokens),
{
    assert(after.tokens().take(prompt.len() as int) =~= prompt);
}

/// A generation ends: each event leaves less to be done.
pub proof fn law_generation_ends(g: Generation, id: u32, after: Generation)
    requires
        g.wf(),
        Generation::steps(&g, id, &after),
    ensures
        after.remaining() < g.remaining(),
{
}

/// Each token is passed through the model before the next one is chosen, and none is left over at
/// the end.
pub proof fn law_tokens_are_passed(g: Generation)
    requires
        g.wf(),
    ensures
        g.next() is Feed || g.passed() == g.tokens().len(),
{
}

/// A generation stops where the token that ends the text has been chosen, or where as many tokens
/// as may be have been, and not before; and all tokens have been passed by then.
pub proof fn law_generation_stops(g: Generation, prompt: Seq<u32>, max_tokens: nat)
    requires
        reached(g, prompt, max_tokens),
    ensures
        g.next() is Stop <==> g.passed() == g.tokens().len() && (g.over() || g.tokens().len()
            == prompt.len() + max_tokens),
        g.next() is Choose <==> g.passed() == g.tokens().len() && !g.over() && g.tokens().len()
            < prompt.len() + max_tokens,
        g.next() matches Action::Feed(i) ==> i == g.passed() as usize && g.passed()
            < g.tokens().len(),
{
}

/// An event passes the next token, or chooses one: the token that ends the text ends it, and any
/// other comes behind the tokens so far.
pub proof fn law_generation_goes_on(g: Generation, id: u32, after: Generation)
    requires
        g.wf(),
        Generation::steps(&g, id, &after),
    ensures
        after.end_token() == g.end_token(),
        g.passed() < g.tokens().len() ==> after.passed() == g.passed() + 1 && after.tokens()
            == g.tokens() && after.over() == g.over(),
        g.passed() == g.tokens().len() && g.end_token() == Some(id) ==> after.over()
            && after.tokens() == g.tokens(),
        g.passed() == g.tokens().len() && g.end_token() != Some(id) ==> !after.over()
            && after.tokens() == g.tokens() + seq![id],
{
    assert(g.tokens().push(id) =~= g.tokens() + seq![id]);
}

/// The token that ends a text, by the metadata of a file.
pub open spec fn eos_in(metadata: Map<Seq<char>, Value>) -> Option<u32> {
    let key = "tokenizer.ggml.eos_token_id"@;
    if metadata.contains_key(key) {
        match metadata[key] {
            Value::U32(id) => Some(id),
            _ => None,
        }
    } else {
        None
    }
}

/// The token that ends a text is the unsigned number under its key; where there is no such number,
/// no token ends a text.
pub proof fn law_eos(metadata: Map<Seq<char>, Value>, id: u32)
    ensures
        eos_in(metadata) == Some(id) <==> metadata.contains_key("tokenizer.ggml.eos_token_id"@)
            && metadata["tokenizer.ggml.eos_token_id"@] == Value::U32(id),
{
}

/// The token that ends a text.
pub fn eos_token_id(gguf: &GGUFFile) -> (r: Option<u32>)
    ensures
        r == eos_in(gguf@.metadata),
{
    match gguf.metadata.get("tokenizer.ggml.eos_token_id") {
        Some(v) => v.as_u32(),
        None => None,
    }
}

} // verus!
