//! Decisions of the token-generation loop.
//!
//! The model, the sampler and the channels are driven from outside: the loop
//! asks [`Generation::action`] what to do, does it, and reports what happened.

use crate::assistant::llm::DoneReason;
use vstd::prelude::*;

verus! {

/// What the loop does next.
#[derive(Debug, Clone, Copy, PartialEq, Eq, Structural)]
pub enum GenAction {
    /// Decode this token, send what text it completes, and report whether the
    /// receiver is still there.
    Deliver { token: u32 },
    /// Look for a newer prompt and report the one that has arrived, if any;
    /// `last` is the token delivered last.
    Poll { last: u32 },
    /// Run the model on this token at this position and report the token
    /// sampled next.
    Forward { token: u32, position: usize },
    /// Send the rest of the text and the summary.
    Finish { reason: DoneReason, n_tokens: u32 },
}

/// A generation in progress.
#[derive(Debug, Clone)]
pub struct Generation {
    /// Length of the prompt in tokens.
    pub prompt_len: usize,
    /// The token that ends the reply.
    pub eos_id: u32,
    /// Most tokens to deliver.
    pub limit: u32,
    /// Tokens delivered so far.
    pub emitted: u32,
    /// What to do next.
    pub action: GenAction,
    /// The prompt that cut this generation short; it is answered next.
    pub newer: Option<String>,
}

impl Generation {
    /// The position of the token delivered last is that of the prompt's end
    /// plus the tokens delivered before it.
    pub open spec fn wf(self) -> bool {
        &&& self.emitted <= self.limit
        &&& self.prompt_len + self.limit <= usize::MAX
        &&& match self.action {
            GenAction::Deliver { token } => token != self.eos_id && self.emitted < self.limit,
            GenAction::Poll { last } => 0 < self.emitted < self.limit,
            GenAction::Forward { token, position } => {
                &&& 0 < self.emitted < self.limit
                &&& position == self.prompt_len + self.emitted - 1
            },
            GenAction::Finish { reason, n_tokens } => {
                &&& n_tokens == self.emitted
                &&& reason == DoneReason::MaxTokens ==> self.emitted == self.limit
            },
        }
        &&& self.newer is Some ==> self.action is Finish
            && self.action->reason == DoneReason::Cancelled
    }

    /// The state after the first token was sampled from the prompt.
    pub open spec fn started(
        prompt_len: usize,
        eos_id: u32,
        limit: u32,
        token: u32,
    ) -> Generation {
        Generation {
            prompt_len,
            eos_id,
            limit,
            emitted: 0,
            action: if token == eos_id {
                GenAction::Finish { reason: DoneReason::Eos, n_tokens: 0 }
            } else if limit == 0 {
                GenAction::Finish { reason: DoneReason::MaxTokens, n_tokens: 0 }
            } else {
                GenAction::Deliver { token }
            },
            newer: None,
        }
    }

    /// The state after a token was delivered, or could not be. The first token
    /// counts as delivered even where the receiver is gone.
    pub open spec fn after_delivery(self, ok: bool) -> Generation {
        let counted = (self.emitted + 1) as u32;
        if !ok {
            let n = if self.emitted == 0 {
                1
            } else {
                self.emitted
            };
            Generation {
                emitted: n,
                action: GenAction::Finish { reason: DoneReason::Cancelled, n_tokens: n },
                ..self
            }
        } else if counted < self.limit {
            Generation {
                emitted: counted,
                action: GenAction::Poll { last: self.action->Deliver_token },
                ..self
            }
        } else {
            Generation {
                emitted: counted,
                action: GenAction::Finish { reason: DoneReason::MaxTokens, n_tokens: counted },
                ..self
            }
        }
    }

    /// The state after looking for a newer prompt, which is kept where there is
    /// one.
    pub open spec fn after_poll(self, newer: Option<String>) -> Generation {
        Generation {
            newer,
            action: if newer is Some {
                GenAction::Finish { reason: DoneReason::Cancelled, n_tokens: self.emitted }
            } else {
                GenAction::Forward {
                    token: self.action->last,
                    position: (self.prompt_len + self.emitted - 1) as usize,
                }
            },
            ..self
        }
    }

    /// The state after the model sampled `token`.
    pub open spec fn after_sample(self, token: u32) -> Generation {
        Generation {
            action: if token == self.eos_id {
                GenAction::Finish { reason: DoneReason::Eos, n_tokens: self.emitted }
            } else {
                GenAction::Deliver { token }
            },
            ..self
        }
    }

    /// Starts with the first token sampled from the prompt. The limit is taken
    /// modulo the range of `u32`.
    pub fn start(prompt_len: usize, eos_id: u32, max_new_tokens: usize, token: u32) -> (r:
        Generation)
        requires
            prompt_len + (max_new_tokens as u32) <= usize::MAX,
        ensures
            r.wf(),
            r == Self::started(prompt_len, eos_id, max_new_tokens as u32, token),
    {
        let limit: u32 = #[verifier::truncate] (max_new_tokens as u32);
        Generation {
            prompt_len,
            eos_id,
            limit,
            emitted: 0,
            newer: None,
            action: if token == eos_id {
                GenAction::Finish { reason: DoneReason::Eos, n_tokens: 0 }
            } else if limit == 0 {
                GenAction::Finish { reason: DoneReason::MaxTokens, n_tokens: 0 }
            } else {
                GenAction::Deliver { token }
            },
        }
    }

    /// What to do next.
    pub fn action(&self) -> (r: GenAction)
        ensures
            r == self.action,
    {
        self.action
    }

    /// Reports whether the token could be delivered.
    pub fn delivered(&mut self, ok: bool)
        requires
            old(self).wf(),
            old(self).action is Deliver,
        ensures
            final(self).wf(),
            *final(self) == old(self).after_delivery(ok),
    {
        let token: u32 = match self.action {
            GenAction::Deliver { token } => token,
            _ => {
                return;
            },
        };
        if !ok {
            if self.emitted == 0 {
                self.emitted = 1;
            }
            self.action = GenAction::Finish {
                reason: DoneReason::Cancelled,
                n_tokens: self.emitted,
            };
            return;
        }
        self.emitted = self.emitted + 1;
        if self.emitted < self.limit {
            self.action = GenAction::Poll { last: token };
        } else {
            self.action = GenAction::Finish {
                reason: DoneReason::MaxTokens,
                n_tokens: self.emitted,
            };
        }
    }

    /// Reports the newer prompt that has arrived, if any. It ends this
    /// generation and is kept in [`newer`](Self::newer).
    pub fn polled(&mut self, newer: Option<String>)
        requires
            old(self).wf(),
            old(self).action is Poll,
        ensures
            final(self).wf(),
            *final(self) == old(self).after_poll(newer),
    {
        let last: u32 = match self.action {
            GenAction::Poll { last } => last,
            _ => {
                return;
            },
        };
        if newer.is_some() {
            self.action = GenAction::Finish {
                reason: DoneReason::Cancelled,
                n_tokens: self.emitted,
            };
            self.newer = newer;
        } else {
            self.newer = None;
            self.action = GenAction::Forward {
                token: last,
                position: self.prompt_len + (self.emitted - 1) as usize,
            };
        }
    }

    /// Reports the token sampled next.
    pub fn sampled(&mut self, token: u32)
        requires
            old(self).wf(),
            old(self).action is Forward,
        ensures
            final(self).wf(),
            *final(self) == old(self).after_sample(token),
    {
        if token == self.eos_id {
            self.action = GenAction::Finish { reason: DoneReason::Eos, n_tokens: self.emitted };
        } else {
            self.action = GenAction::Deliver { token };
        }
    }
}

/// The time to the first piece once another piece has come; 0 stands for none
/// yet.
pub open spec fn first_seen(ttft_ms: u64, elapsed_ms: u64) -> u64 {
    if ttft_ms > 0 {
        ttft_ms
    } else {
        elapsed_ms
    }
}

/// The first time seen is kept, whatever comes later.
pub proof fn lemma_first_time_is_kept(first: u64, later: u64)
    requires
        first > 0,
    ensures
        first_seen(0, first) == first,
        first_seen(first_seen(0, first), later) == first,
        first_seen(0, 0) == 0,
{
}

/// Time to the first piece of text: the first time seen is kept.
pub fn first_piece_ms(ttft_ms: u64, elapsed_ms: u64) -> (r: u64)
    ensures
        r == first_seen(ttft_ms, elapsed_ms),
        r == if ttft_ms == 0 {
            elapsed_ms
        } else {
            ttft_ms
        },
{
    if ttft_ms == 0 {
        elapsed_ms
    } else {
        ttft_ms
    }
}

/// The tokens before the first `eos_id`.
pub open spec fn before_eos(tokens: Seq<u32>, eos_id: u32) -> Seq<u32>
    decreases tokens.len(),
{
    if tokens.len() == 0 || tokens[0] == eos_id {
        Seq::empty()
    } else {
        seq![tokens[0]] + before_eos(tokens.subrange(1, tokens.len() as int), eos_id)
    }
}

/// The tokens delivered by an undisturbed generation in state `g`, where the
/// model samples `later` in turn.
pub open spec fn undisturbed(g: Generation, later: Seq<u32>) -> Seq<u32>
    decreases later.len(),
{
    match g.action {
        GenAction::Deliver { token } => {
            let next = g.after_delivery(true);
            if next.action is Poll && later.len() > 0 {
                seq![token] + undisturbed(
                    next.after_poll(None).after_sample(later[0]),
                    later.subrange(1, later.len() as int),
                )
            } else {
                seq![token]
            }
        },
        _ => Seq::empty(),
    }
}

/// Without interruption a generation delivers what the model samples, up to
/// the end-of-sequence token or the token limit, whichever comes first.
pub proof fn lemma_undisturbed_delivers_until_eos_or_limit(
    prompt_len: usize,
    eos_id: u32,
    limit: u32,
    tokens: Seq<u32>,
)
    requires
        tokens.len() > 0,
        tokens.len() >= limit,
    ensures
        ({
            let told = undisturbed(
                Generation::started(prompt_len, eos_id, limit, tokens[0]),
                tokens.subrange(1, tokens.len() as int),
            );
            let all = before_eos(tokens, eos_id);
            told == if all.len() > limit {
                all.take(limit as int)
            } else {
                all
            }
        }),
{
    if limit == 0 {
        assert(before_eos(tokens, eos_id).take(0) =~= Seq::<u32>::empty());
    } else {
        lemma_undisturbed_from(
            Generation::started(prompt_len, eos_id, limit, tokens[0]),
            tokens,
        );
    }
}

proof fn lemma_undisturbed_from(g: Generation, tokens: Seq<u32>)
    requires
        g.emitted < g.limit,
        tokens.len() >= g.limit - g.emitted,
        match g.action {
            GenAction::Deliver { token } => token == tokens[0] && token != g.eos_id,
            GenAction::Finish { reason, n_tokens } => tokens[0] == g.eos_id,
            _ => false,
        },
    ensures
        ({
            let left = g.limit - g.emitted;
            let all = before_eos(tokens, g.eos_id);
            undisturbed(g, tokens.subrange(1, tokens.len() as int)) == if all.len() > left {
                all.take(left)
            } else {
                all
            }
        }),
    decreases tokens.len(),
{
    let left = g.limit - g.emitted;
    let all = before_eos(tokens, g.eos_id);
    let later = tokens.subrange(1, tokens.len() as int);
    match g.action {
        GenAction::Deliver { token } => {
            let next = g.after_delivery(true);
            if next.action is Poll {
                assert(later.len() > 0);
                let g2 = next.after_poll(None).after_sample(later[0]);
                lemma_undisturbed_from(g2, later);
                let rest = before_eos(later, g.eos_id);
                assert(all == seq![token] + rest);
                if all.len() > left {
                    assert(all.take(left) =~= seq![token] + rest.take(left - 1));
                }
            } else {
                assert(left == 1);
                assert(all == seq![token] + before_eos(later, g.eos_id));
                if all.len() > 1 {
                    assert(all.take(1) =~= seq![token]);
                } else {
                    assert(all =~= seq![token]);
                }
            }
        },
        _ => {
            assert(all =~= Seq::<u32>::empty());
        },
    }
}

/// Every generation ends: each report either finishes it, or brings it nearer
/// to its limit, or moves it on within the same token.
pub open spec fn remaining(g: Generation) -> int {
    let rounds = g.limit - g.emitted;
    match g.action {
        GenAction::Deliver { token } => 3 * rounds,
        GenAction::Poll { last } => 3 * rounds + 2,
        GenAction::Forward { token, position } => 3 * rounds + 1,
        GenAction::Finish { reason, n_tokens } => 0,
    }
}

/// Each report brings a generation nearer to its end.
pub proof fn lemma_every_report_makes_progress(
    g: Generation,
    token: u32,
    ok: bool,
    newer: Option<String>,
)
    requires
        g.wf(),
    ensures
        remaining(g) >= 0,
        g.action is Finish <==> remaining(g) == 0,
        g.action is Deliver ==> remaining(g.after_delivery(ok)) < remaining(g),
        g.action is Poll ==> remaining(g.after_poll(newer)) < remaining(g),
        g.action is Forward ==> remaining(g.after_sample(token)) < remaining(g),
{
}

/// The prompt answered next: the last of those that wait, or else the one that
/// cut the last generation short.
pub open spec fn answered_next(pending: Option<String>, backlog: Seq<String>) -> Option<String> {
    if backlog.len() > 0 {
        Some(backlog.last())
    } else {
        pending
    }
}

/// Picks the prompt to answer next. `pending` cut the last generation short;
/// `backlog` is what has arrived since, in order.
pub fn next_prompt(pending: Option<String>, backlog: Vec<String>) -> (r: Option<String>)
    ensures
        r == answered_next(pending, backlog@),
{
    let mut backlog = backlog;
    match backlog.pop() {
        Some(latest) => Some(latest),
        None => pending,
    }
}

/// A newer prompt ends the generation it interrupts and is not lost: the
/// generation reports that it was cancelled, and the prompt is the one answered
/// next, unless yet newer ones have arrived by then.
pub proof fn lemma_newer_prompt_is_answered_next(
    g: Generation,
    prompt: String,
    backlog: Seq<String>,
)
    requires
        g.wf(),
        g.action is Poll,
    ensures
        ({
            let after = g.after_poll(Some(prompt));
            &&& after.action == GenAction::Finish {
                reason: DoneReason::Cancelled,
                n_tokens: g.emitted,
            }
            &&& backlog.len() == 0 ==> answered_next(after.newer, backlog) == Some(prompt)
            &&& backlog.len() > 0 ==> answered_next(after.newer, backlog) == Some(backlog.last())
        }),
{
}

/// Where the generation in state `g` stands when it ends, if nothing disturbs
/// it and the model samples `later` in turn.
pub open spec fn ended(g: Generation, later: Seq<u32>) -> Generation
    decreases later.len(),
{
    match g.action {
        GenAction::Deliver { token } => {
            let next = g.after_delivery(true);
            if next.action is Poll && later.len() > 0 {
                ended(
                    next.after_poll(None).after_sample(later[0]),
                    later.subrange(1, later.len() as int),
                )
            } else {
                next
            }
        },
        _ => g,
    }
}

proof fn lemma_ended_from(g: Generation, tokens: Seq<u32>)
    requires
        g.emitted < g.limit,
        tokens.len() >= g.limit - g.emitted,
        match g.action {
            GenAction::Deliver { token } => token == tokens[0] && token != g.eos_id,
            GenAction::Finish { reason, n_tokens } => tokens[0] == g.eos_id && reason
                == DoneReason::Eos && n_tokens == g.emitted,
            _ => false,
        },
    ensures
        ({
            let left = g.limit - g.emitted;
            let all = before_eos(tokens, g.eos_id);
            ended(g, tokens.subrange(1, tokens.len() as int)).action == if all.len() < left {
                GenAction::Finish {
                    reason: DoneReason::Eos,
                    n_tokens: (g.emitted + all.len()) as u32,
                }
            } else {
                GenAction::Finish { reason: DoneReason::MaxTokens, n_tokens: g.limit }
            }
        }),
    decreases tokens.len(),
{
    let left = g.limit - g.emitted;
    let all = before_eos(tokens, g.eos_id);
    let later = tokens.subrange(1, tokens.len() as int);
    match g.action {
        GenAction::Deliver { token } => {
            let next = g.after_delivery(true);
            assert(all == seq![token] + before_eos(later, g.eos_id));
            if next.action is Poll {
                assert(later.len() > 0);
                lemma_ended_from(next.after_poll(None).after_sample(later[0]), later);
            } else {
                assert(left == 1);
            }
        },
        _ => {},
    }
}

/// The summary of an undisturbed generation is true to it: it names the end of
/// sequence where the model came to it before the limit and the limit where
/// not, and counts the tokens that were delivered.
pub proof fn lemma_summary_is_true(
    prompt_len: usize,
    eos_id: u32,
    limit: u32,
    tokens: Seq<u32>,
)
    requires
        tokens.len() > 0,
        tokens.len() >= limit,
        limit > 0,
    ensures
        ({
            let g = Generation::started(prompt_len, eos_id, limit, tokens[0]);
            let later = tokens.subrange(1, tokens.len() as int);
            let told = undisturbed(g, later);
            let natural = before_eos(tokens, eos_id).len() < limit;
            &&& ended(g, later).action == GenAction::Finish {
                reason: if natural {
                    DoneReason::Eos
                } else {
                    DoneReason::MaxTokens
                },
                n_tokens: told.len() as u32,
            }
            &&& told.len() <= limit
            &&& forall|k: int| 0 <= k < told.len() ==> #[trigger] told[k] == tokens[k] && told[k]
                != eos_id
            &&& told.len() < limit ==> told.len() < tokens.len() && tokens[told.len() as int]
                == eos_id || told.len() == tokens.len()
        }),
{
    let g = Generation::started(prompt_len, eos_id, limit, tokens[0]);
    lemma_undisturbed_from(g, tokens);
    lemma_ended_from(g, tokens);
    lemma_before_eos_is_prefix(tokens, eos_id);
}

proof fn lemma_before_eos_is_prefix(tokens: Seq<u32>, eos_id: u32)
    ensures
        before_eos(tokens, eos_id).len() <= tokens.len(),
        forall|k: int|
            0 <= k < before_eos(tokens, eos_id).len() ==> #[trigger] before_eos(tokens, eos_id)[k]
                == tokens[k] && tokens[k] != eos_id,
        before_eos(tokens, eos_id).len() < tokens.len() ==> tokens[before_eos(
            tokens,
            eos_id,
        ).len() as int] == eos_id,
    decreases tokens.len(),
{
    if tokens.len() > 0 && tokens[0] != eos_id {
        let rest = tokens.subrange(1, tokens.len() as int);
        lemma_before_eos_is_prefix(rest, eos_id);
        let all = before_eos(tokens, eos_id);
        let less = before_eos(rest, eos_id);
        assert(all == seq![tokens[0]] + less);
        assert forall|k: int| 0 <= k < all.len() implies #[trigger] all[k] == tokens[k] && tokens[k]
            != eos_id by {
            if k > 0 {
                assert(all[k] == less[k - 1]);
                assert(rest[k - 1] == tokens[k]);
            }
        }
        if all.len() < tokens.len() {
            assert(rest[less.len() as int] == tokens[all.len() as int]);
        }
    }
}

/// The model sees every delivered token once, at the position after the one
/// before: the first right behind the prompt, and each next one a place
/// further on.
pub proof fn lemma_model_reads_on(
    prompt_len: usize,
    eos_id: u32,
    limit: u32,
    g: Generation,
    token: u32,
)
    requires
        g.wf(),
        g.action == (GenAction::Deliver { token }),
        g.emitted + 1 < g.limit,
    ensures
        g.after_delivery(true).after_poll(None).action == (GenAction::Forward {
            token,
            position: (g.prompt_len + g.emitted) as usize,
        }),
        g.after_delivery(true).emitted == g.emitted + 1,
        Generation::started(prompt_len, eos_id, limit, token).emitted == 0,
        forall|next: u32|
            next != g.eos_id ==> (#[trigger] g.after_delivery(true).after_poll(None).after_sample(
                next,
            )).action == (GenAction::Deliver { token: next }),
        forall|next: u32|
            (#[trigger] g.after_delivery(true).after_poll(None).after_sample(next)).emitted
                == g.emitted + 1,
{
}

/// A receiver that is gone ends the generation at once. What counts as
/// delivered is what came before, and the first token in any case.
pub proof fn lemma_lost_receiver_cancels(g: Generation)
    requires
        g.wf(),
        g.action is Deliver,
    ensures
        g.after_delivery(false).action == (GenAction::Finish {
            reason: DoneReason::Cancelled,
            n_tokens: if g.emitted > 1 {
                g.emitted
            } else {
                1
            },
        }),
{
}

} // verus!
