//! Runtime-owned context storage, TTL activations and span timing behind
//! the facade dispatcher. Time is a monotonic clock reading in nanoseconds
//! that the caller supplies.

use vstd::prelude::*;

use crate::model::{ContextToken, Interest, SpanRef, SpanTiming, SpanToken, INTEREST_CONTEXTUAL};
use crate::wire::wrap_add;
use std::collections::HashMap;

verus! {

broadcast use vstd::std_specs::hash::group_hash_axioms;

/// What the runtime knows of one context.
#[derive(Debug)]
pub struct ContextSnapshot<'a> {
    pub token: ContextToken,
    pub name: &'a str,
    pub parent: Option<ContextToken>,
    pub links: Vec<ContextToken>,
}

/// A span that ended, with its monotonic duration in nanoseconds.
#[derive(Clone, Copy, Debug)]
pub struct CompletedSpan<'a> {
    pub token: SpanToken,
    pub event_name: &'a str,
    pub context: ContextToken,
    pub timing: SpanTiming,
    pub elapsed: u64,
    pub warning_threshold: Option<u64>,
    pub threshold_exceeded: bool,
}

#[derive(Clone, Copy, Debug)]
pub struct ActiveSpan<'a> {
    pub event_name: &'a str,
    pub context: ContextToken,
    pub timing: SpanTiming,
    pub started: u64,
    pub warning_threshold: Option<u64>,
}

/// Extra detail asked for a context and its descendants until `expires`.
#[derive(Clone, Copy, Debug)]
pub struct Activation {
    pub root: ContextToken,
    pub interest: Interest,
    pub expires: u64,
}

/// How many completed spans are kept for a reader; older ones are dropped
/// and counted.
pub const MAX_COMPLETED_SPANS: usize = 1024;

/// What the runtime has had to drop for want of a reader.
#[derive(Clone, Copy, Debug, PartialEq, Eq)]
pub struct DeliveryStats {
    pub completed_spans_dropped: u64,
}

/// The completed spans kept before one more is added: the oldest leaves a
/// full window.
pub open spec fn make_room<'a>(spans: Seq<CompletedSpan<'a>>) -> Seq<CompletedSpan<'a>> {
    if spans.len() >= MAX_COMPLETED_SPANS {
        spans.drop_first()
    } else {
        spans
    }
}

/// The window after the spans `ended` complete one after another, starting
/// from the window `kept`.
pub open spec fn window_after<'a>(kept: Seq<CompletedSpan<'a>>, ended: Seq<CompletedSpan<'a>>) -> Seq<CompletedSpan<'a>>
    decreases ended.len(),
{
    if ended.len() == 0 {
        kept
    } else {
        make_room(window_after(kept, ended.drop_last())).push(ended.last())
    }
}

/// How many spans are dropped while the spans `ended` complete, starting
/// from the window `kept`.
pub open spec fn dropped_after<'a>(kept: Seq<CompletedSpan<'a>>, ended: Seq<CompletedSpan<'a>>) -> nat
    decreases ended.len(),
{
    if ended.len() == 0 {
        0
    } else {
        dropped_after(kept, ended.drop_last()) + if window_after(kept, ended.drop_last()).len()
            >= MAX_COMPLETED_SPANS {
            1nat
        } else {
            0nat
        }
    }
}

/// However many spans complete without a reader, the window holds exactly
/// the most recent of them (at most `MAX_COMPLETED_SPANS`, oldest first),
/// and every span is either still in the window or counted as dropped.
pub proof fn law_completed_spans_window<'a>(kept: Seq<CompletedSpan<'a>>, ended: Seq<CompletedSpan<'a>>)
    requires
        kept.len() <= MAX_COMPLETED_SPANS,
    ensures
        ({
            let all = kept + ended;
            let n = if all.len() <= MAX_COMPLETED_SPANS {
                all.len() as int
            } else {
                MAX_COMPLETED_SPANS as int
            };
            window_after(kept, ended) == all.subrange(all.len() - n, all.len() as int)
        }),
        window_after(kept, ended).len() <= MAX_COMPLETED_SPANS,
        window_after(kept, ended).len() + dropped_after(kept, ended) == kept.len() + ended.len(),
    decreases ended.len(),
{
    let all = kept + ended;
    if ended.len() == 0 {
        assert(all =~= kept);
        assert(all.subrange(0, all.len() as int) =~= all);
    } else {
        let prev = ended.drop_last();
        law_completed_spans_window(kept, prev);
        let all0 = kept + prev;
        assert(all0 =~= all.drop_last());
        let w = window_after(kept, prev);
        let n0 = if all0.len() <= MAX_COMPLETED_SPANS {
            all0.len() as int
        } else {
            MAX_COMPLETED_SPANS as int
        };
        assert(w == all0.subrange(all0.len() - n0, all0.len() as int));
        let n = if all.len() <= MAX_COMPLETED_SPANS {
            all.len() as int
        } else {
            MAX_COMPLETED_SPANS as int
        };
        if w.len() >= MAX_COMPLETED_SPANS {
            assert(make_room(w) =~= all0.subrange(all0.len() - n0 + 1, all0.len() as int));
            assert(make_room(w).push(ended.last()) =~= all.subrange(all.len() - n, all.len() as int));
        } else {
            assert(w.push(ended.last()) =~= all.subrange(all.len() - n, all.len() as int));
        }
    }
}

/// The mutable runtime core: configuration generation, baseline interest,
/// contexts, activations and spans.
#[derive(Debug)]
pub struct Runtime<'a> {
    pub generation: usize,
    pub baseline_interest: usize,
    pub next_context: u64,
    pub next_span: u64,
    pub contexts: HashMap<u64, ContextSnapshot<'a>>,
    pub active_spans: HashMap<u64, ActiveSpan<'a>>,
    pub completed_spans: Vec<CompletedSpan<'a>>,
    pub completed_spans_dropped: u64,
    pub activations: Vec<Activation>,
}

/// Whether `candidate` is `ancestor` or reaches it through recorded parents
/// in at most `steps` steps.
pub open spec fn reaches(m: Map<u64, ContextSnapshot>, candidate: ContextToken, ancestor: ContextToken, steps: nat) -> bool
    decreases steps,
{
    if candidate.id == 0 {
        false
    } else if candidate == ancestor {
        true
    } else if steps == 0 || !m.contains_key(candidate.id) {
        false
    } else {
        match m[candidate.id].parent {
            None => false,
            Some(p) => reaches(m, p, ancestor, (steps - 1) as nat),
        }
    }
}

/// Whether `candidate` is `ancestor` or descends from it through recorded
/// parents. A chain of parents that does not loop passes through each
/// recorded context at most once, so as many steps as there are contexts
/// follow it to its end.
pub open spec fn descends(m: Map<u64, ContextSnapshot>, candidate: ContextToken, ancestor: ContextToken) -> bool {
    reaches(m, candidate, ancestor, m.len())
}

/// The union of the interests of `acts` whose root `context` descends from.
pub open spec fn activation_union(acts: Seq<Activation>, m: Map<u64, ContextSnapshot>, context: ContextToken) -> usize
    decreases acts.len(),
{
    if acts.len() == 0 {
        0
    } else {
        activation_union(acts.drop_last(), m, context) | if descends(m, context, acts.last().root) {
            acts.last().interest.bits
        } else {
            0usize
        }
    }
}

/// The activations still live at `now`, in order.
pub open spec fn live(acts: Seq<Activation>, now: u64) -> Seq<Activation>
    decreases acts.len(),
{
    if acts.len() == 0 {
        Seq::empty()
    } else {
        live(acts.drop_last(), now) + if acts.last().expires > now {
            seq![acts.last()]
        } else {
            Seq::empty()
        }
    }
}

pub open spec fn links_distinct(links: Seq<ContextToken>) -> bool {
    forall|i: int, j: int| 0 <= i < j < links.len() ==> links[i] != links[j]
}

impl<'a> Runtime<'a> {
    /// Every recorded context is keyed by its own id, was issued by this
    /// runtime, and holds no link twice.
    pub open spec fn wf(&self) -> bool {
        &&& forall|id: u64|
            #[trigger] self.contexts@.contains_key(id) ==> {
                let s = self.contexts@[id];
                &&& s.token.id == id
                &&& 0 < id < self.next_context
                &&& links_distinct(s.links@)
            }
        &&& self.next_context >= 1
        &&& self.next_span >= 1
        &&& self.completed_spans@.len() <= MAX_COMPLETED_SPANS
    }

    pub fn new() -> (r: Self)
        ensures
            r.wf(),
            r.generation == 0,
            r.baseline_interest == 0,
            r.next_context == 1,
            r.next_span == 1,
            r.contexts@ == Map::<u64, ContextSnapshot<'a>>::empty(),
            r.active_spans@ == Map::<u64, ActiveSpan<'a>>::empty(),
            r.completed_spans@.len() == 0,
            r.completed_spans_dropped == 0,
            r.activations@.len() == 0,
    {
        Runtime {
            generation: 0,
            baseline_interest: 0,
            next_context: 1,
            next_span: 1,
            contexts: HashMap::new(),
            active_spans: HashMap::new(),
            completed_spans: Vec::new(),
            completed_spans_dropped: 0,
            activations: Vec::new(),
        }
    }

    fn advance_generation(&mut self)
        requires
            old(self).generation < usize::MAX - 1,
        ensures
            *final(self) == (Runtime { generation: (old(self).generation + 1) as usize, ..*old(self) }),
    {
        self.generation = self.generation + 1;
    }

    pub fn generation(&self) -> (r: usize)
        ensures
            r == self.generation,
    {
        self.generation
    }

    /// Changes the field groups recorded without context targeting.
    pub fn set_interest(&mut self, interest: Interest)
        requires
            old(self).generation < usize::MAX - 1,
        ensures
            *final(self) == (Runtime {
                baseline_interest: interest.bits & !INTEREST_CONTEXTUAL,
                generation: (old(self).generation + 1) as usize,
                ..*old(self)
            }),
    {
        self.baseline_interest = interest.without_contextual().bits();
        self.advance_generation();
    }

    /// Enables `interest` for `root` and its descendants for `ttl`
    /// nanoseconds from `now`.
    pub fn activate_context(&mut self, root: ContextToken, interest: Interest, ttl: u64, now: u64)
        requires
            old(self).generation < usize::MAX - 1,
            now + ttl <= u64::MAX,
        ensures
            final(self).activations@ == old(self).activations@.push(
                Activation {
                    root,
                    interest: Interest { bits: interest.bits & !INTEREST_CONTEXTUAL },
                    expires: (now + ttl) as u64,
                },
            ),
            *final(self) == (Runtime {
                activations: final(self).activations,
                generation: (old(self).generation + 1) as usize,
                ..*old(self)
            }),
    {
        let expires = now + ttl;
        self.activations.push(Activation { root, interest: interest.without_contextual(), expires });
        self.advance_generation();
    }

    /// Drops expired activations (advancing the generation if any were
    /// dropped) and returns the union of the live ones that `context`
    /// descends from.
    fn contextual_activation(&mut self, context: ContextToken, now: u64) -> (r: Interest)
        requires
            old(self).wf(),
            old(self).generation < usize::MAX - 1,
        ensures
            final(self).activations@ == live(old(self).activations@, now),
            final(self).generation == if live(old(self).activations@, now).len() != old(
                self,
            ).activations@.len() {
                (old(self).generation + 1) as usize
            } else {
                old(self).generation
            },
            *final(self) == (Runtime {
                activations: final(self).activations,
                generation: final(self).generation,
                ..*old(self)
            }),
            r.bits == activation_union(live(old(self).activations@, now), old(self).contexts@, context),
    {
        let before = self.activations.len();
        let mut kept: Vec<Activation> = Vec::new();
        let mut i: usize = 0;
        let ghost acts = self.activations@;
        proof {
            assert(acts.subrange(0, 0) =~= Seq::<Activation>::empty());
        }
        while i < self.activations.len()
            invariant
                acts == self.activations@,
                i <= acts.len(),
                kept@ == live(acts.subrange(0, i as int), now),
            decreases acts.len() - i,
        {
            proof {
                assert(acts.subrange(0, i + 1).drop_last() =~= acts.subrange(0, i as int));
            }
            let a = self.activations[i];
            if a.expires > now {
                kept.push(a);
            }
            proof {
                assert(kept@ =~= live(acts.subrange(0, i + 1), now));
            }
            i = i + 1;
        }
        proof {
            assert(acts.subrange(0, acts.len() as int) =~= acts);
        }
        let mut interest = Interest::none();
        let mut j: usize = 0;
        let ghost lv = kept@;
        proof {
            assert(lv.subrange(0, 0) =~= Seq::<Activation>::empty());
        }
        while j < kept.len()
            invariant
                self.wf(),
                lv == kept@,
                j <= lv.len(),
                interest.bits == activation_union(lv.subrange(0, j as int), self.contexts@, context),
            decreases lv.len() - j,
        {
            proof {
                assert(lv.subrange(0, j + 1).drop_last() =~= lv.subrange(0, j as int));
            }
            if is_descendant(&self.contexts, context, kept[j].root) {
                interest = interest.union(kept[j].interest);
            } else {
                proof {
                    assert(interest.bits | 0usize == interest.bits) by (bit_vector);
                }
            }
            j = j + 1;
        }
        proof {
            assert(lv.subrange(0, lv.len() as int) =~= lv);
        }
        let removed = before != kept.len();
        self.activations = kept;
        if removed {
            self.advance_generation();
        }
        interest
    }

    /// Whether some live activation covers `context`.
    pub fn context_is_active(&mut self, context: ContextToken, now: u64) -> (r: bool)
        requires
            old(self).wf(),
            old(self).generation < usize::MAX - 1,
        ensures
            r == (activation_union(live(old(self).activations@, now), old(self).contexts@, context) != 0),
            final(self).activations@ == live(old(self).activations@, now),
            final(self).contexts@ == old(self).contexts@,
    {
        self.contextual_activation(context, now).any()
    }

    /// The baseline interest, plus the contextual bit while any activation
    /// is recorded.
    pub fn interest(&self) -> (r: Interest)
        ensures
            r.bits == if self.activations@.len() == 0 {
                self.baseline_interest
            } else {
                self.baseline_interest | INTEREST_CONTEXTUAL
            },
    {
        let baseline = Interest::from_bits(self.baseline_interest);
        if self.activations.len() == 0 {
            baseline
        } else {
            baseline.union(Interest::from_bits(INTEREST_CONTEXTUAL))
        }
    }

    /// The baseline interest together with every live activation that
    /// `context` descends from.
    pub fn contextual_interest(&mut self, context: ContextToken, now: u64) -> (r: Interest)
        requires
            old(self).wf(),
            old(self).generation < usize::MAX - 1,
        ensures
            r.bits == old(self).baseline_interest | activation_union(
                live(old(self).activations@, now),
                old(self).contexts@,
                context,
            ),
            final(self).activations@ == live(old(self).activations@, now),
            final(self).contexts@ == old(self).contexts@,
    {
        let baseline = Interest::from_bits(self.baseline_interest);
        baseline.union(self.contextual_activation(context, now))
    }

    /// Records a new context under `parent` and returns its token.
    pub fn create_context(&mut self, parent: ContextToken, name: &'a str) -> (r: ContextToken)
        requires
            old(self).wf(),
            old(self).next_context < u64::MAX,
        ensures
            final(self).wf(),
            r == (ContextToken { id: old(self).next_context, flags: 0 }),
            final(self).next_context == old(self).next_context + 1,
            final(self).contexts@.contains_key(r.id),
            final(self).contexts@[r.id].token == r,
            final(self).contexts@[r.id].name == name,
            final(self).contexts@[r.id].parent == if parent.id == 0 {
                None::<ContextToken>
            } else {
                Some(parent)
            },
            final(self).contexts@[r.id].links@.len() == 0,
            final(self).contexts@.remove(r.id) == old(self).contexts@,
            *final(self) == (Runtime {
                contexts: final(self).contexts,
                next_context: final(self).next_context,
                ..*old(self)
            }),
    {
        let id = self.next_context;
        self.next_context = id + 1;
        let token = ContextToken::from_parts(id, 0);
        let parent_link = if parent.is_none() {
            None
        } else {
            Some(parent)
        };
        let ghost before = self.contexts@;
        self.contexts.insert(id, ContextSnapshot { token, name, parent: parent_link, links: Vec::new() });
        proof {
            assert(!before.contains_key(id));
            assert(self.contexts@.remove(id) =~= before);
        }
        token
    }

    /// Records `related` as a non-parent link of `context`, once.
    pub fn link_context(&mut self, context: ContextToken, related: ContextToken)
        requires
            old(self).wf(),
        ensures
            final(self).wf(),
            !old(self).contexts@.contains_key(context.id) ==> final(self).contexts@ == old(self).contexts@,
            old(self).contexts@.contains_key(context.id) ==> {
                let s = old(self).contexts@[context.id];
                let t = final(self).contexts@[context.id];
                &&& final(self).contexts@.dom() == old(self).contexts@.dom()
                &&& final(self).contexts@.remove(context.id) == old(self).contexts@.remove(context.id)
                &&& t.token == s.token
                &&& t.name == s.name
                &&& t.parent == s.parent
                &&& t.links@ == if s.links@.contains(related) {
                    s.links@
                } else {
                    s.links@.push(related)
                }
            },
            *final(self) == (Runtime { contexts: final(self).contexts, ..*old(self) }),
    {
        let id = context.id;
        let ghost before = self.contexts@;
        match self.contexts.remove(&id) {
            None => {},
            Some(snapshot) => {
                let mut s = snapshot;
                let mut present = false;
                let mut i: usize = 0;
                while i < s.links.len()
                    invariant
                        i <= s.links@.len(),
                        present == (exists|x: int| 0 <= x < i && s.links@[x] == related),
                    decreases s.links@.len() - i,
                {
                    if s.links[i] == related {
                        present = true;
                    }
                    i = i + 1;
                }
                let ghost old_links = s.links@;
                if !present {
                    s.links.push(related);
                    proof {
                        assert(!old_links.contains(related));
                        assert(links_distinct(s.links@)) by {
                            assert forall|a: int, b: int| 0 <= a < b < s.links@.len() implies s.links@[a]
                                != s.links@[b] by {
                                if b == old_links.len() {
                                    assert(s.links@[a] == old_links[a]);
                                }
                            }
                        }
                    }
                } else {
                    proof {
                        assert(old_links.contains(related));
                    }
                }
                self.contexts.insert(id, s);
                proof {
                    assert(self.contexts@.remove(id) =~= before.remove(id));
                    assert(self.contexts@.dom() =~= before.dom());
                }
            },
        }
    }

    /// A copy of what is recorded for `token`'s context.
    pub fn context(&self, token: ContextToken) -> (r: Option<ContextSnapshot<'a>>)
        ensures
            match r {
                None => !self.contexts@.contains_key(token.id),
                Some(s) => {
                    &&& self.contexts@.contains_key(token.id)
                    &&& s.token == self.contexts@[token.id].token
                    &&& s.name == self.contexts@[token.id].name
                    &&& s.parent == self.contexts@[token.id].parent
                    &&& s.links@ == self.contexts@[token.id].links@
                },
            },
    {
        let id = token.into_parts().0;
        match self.contexts.get(&id) {
            None => None,
            Some(s) => {
                let mut links: Vec<ContextToken> = Vec::new();
                let mut i: usize = 0;
                while i < s.links.len()
                    invariant
                        i <= s.links@.len(),
                        links@ == s.links@.subrange(0, i as int),
                    decreases s.links@.len() - i,
                {
                    links.push(s.links[i]);
                    proof {
                        assert(links@ =~= s.links@.subrange(0, i + 1));
                    }
                    i = i + 1;
                }
                proof {
                    assert(links@ =~= s.links@);
                }
                Some(ContextSnapshot { token: s.token, name: s.name, parent: s.parent, links })
            },
        }
    }

    /// Starts timing `span` at `now` and returns its token.
    pub fn start_span(&mut self, span: SpanRef<'a>, now: u64) -> (r: SpanToken)
        requires
            old(self).next_span < u64::MAX,
        ensures
            r == (SpanToken { id: old(self).next_span, flags: 0 }),
            final(self).next_span == old(self).next_span + 1,
            final(self).active_spans@ == old(self).active_spans@.insert(
                r.id,
                ActiveSpan {
                    event_name: span.event.metadata.event_name,
                    context: span.event.context,
                    timing: span.timing,
                    started: now,
                    warning_threshold: span.warning_threshold,
                },
            ),
            *final(self) == (Runtime {
                active_spans: final(self).active_spans,
                next_span: final(self).next_span,
                ..*old(self)
            }),
    {
        let id = self.next_span;
        self.next_span = id + 1;
        let token = SpanToken::from_parts(id, 0);
        let active = ActiveSpan {
            event_name: span.event.metadata.event_name,
            context: span.event.context,
            timing: span.timing,
            started: now,
            warning_threshold: span.warning_threshold,
        };
        self.active_spans.insert(id, active);
        token
    }

    /// Completes the span `span` at `now`, attributing it to the context it
    /// captured when it started. Unknown spans are ignored. When the window
    /// of completed spans is full, the oldest one is dropped and counted.
    pub fn end_span(&mut self, span: SpanToken, captured_context: ContextToken, now: u64)
        requires
            old(self).wf(),
            old(self).active_spans@.contains_key(span.id) ==> old(self).active_spans@[span.id].context
                == captured_context,
        ensures
            final(self).wf(),
            !old(self).active_spans@.contains_key(span.id) ==> *final(self) == (Runtime {
                active_spans: final(self).active_spans,
                ..*old(self)
            }) && final(self).active_spans@ == old(self).active_spans@,
            old(self).active_spans@.contains_key(span.id) ==> {
                let a = old(self).active_spans@[span.id];
                let elapsed = if now >= a.started {
                    (now - a.started) as u64
                } else {
                    0u64
                };
                &&& final(self).active_spans@ == old(self).active_spans@.remove(span.id)
                &&& final(self).completed_spans@ == make_room(old(self).completed_spans@).push(
                    CompletedSpan {
                        token: span,
                        event_name: a.event_name,
                        context: captured_context,
                        timing: a.timing,
                        elapsed,
                        warning_threshold: a.warning_threshold,
                        threshold_exceeded: match a.warning_threshold {
                            Some(t) => elapsed >= t,
                            None => false,
                        },
                    },
                )
                &&& final(self).completed_spans_dropped == if old(self).completed_spans@.len()
                    >= MAX_COMPLETED_SPANS {
                    wrap_add(old(self).completed_spans_dropped, 1)
                } else {
                    old(self).completed_spans_dropped
                }
                &&& *final(self) == (Runtime {
                    active_spans: final(self).active_spans,
                    completed_spans: final(self).completed_spans,
                    completed_spans_dropped: final(self).completed_spans_dropped,
                    ..*old(self)
                })
            },
    {
        let id = span.into_parts().0;
        let active = match self.active_spans.remove(&id) {
            None => {
                return;
            },
            Some(a) => a,
        };
        let elapsed = if now >= active.started {
            now - active.started
        } else {
            0
        };
        let threshold_exceeded = match active.warning_threshold {
            Some(t) => elapsed >= t,
            None => false,
        };
        if self.completed_spans.len() >= MAX_COMPLETED_SPANS {
            let ghost before = self.completed_spans@;
            self.completed_spans.remove(0);
            assert(self.completed_spans@ =~= before.drop_first());
            self.completed_spans_dropped = self.completed_spans_dropped.wrapping_add(1);
        }
        self.completed_spans.push(
            CompletedSpan {
                token: span,
                event_name: active.event_name,
                context: captured_context,
                timing: active.timing,
                elapsed,
                warning_threshold: active.warning_threshold,
                threshold_exceeded,
            },
        );
    }

    /// Hands over the retained window of completed spans, oldest first, and
    /// empties it.
    pub fn take_completed_spans(&mut self) -> (r: Vec<CompletedSpan<'a>>)
        requires
            old(self).wf(),
        ensures
            final(self).wf(),
            r@ == old(self).completed_spans@,
            final(self).completed_spans@.len() == 0,
            *final(self) == (Runtime { completed_spans: final(self).completed_spans, ..*old(self) }),
    {
        let mut taken: Vec<CompletedSpan<'a>> = Vec::new();
        std::mem::swap(&mut taken, &mut self.completed_spans);
        taken
    }

    /// How many completed spans were dropped, over the runtime's life, to
    /// keep the window bounded (modulo 2^64).
    pub fn completed_spans_dropped(&self) -> (r: u64)
        ensures
            r == self.completed_spans_dropped,
    {
        self.completed_spans_dropped
    }

    /// The runtime's loss counters.
    pub fn delivery_stats(&self) -> (r: DeliveryStats)
        ensures
            r == (DeliveryStats { completed_spans_dropped: self.completed_spans_dropped }),
    {
        DeliveryStats { completed_spans_dropped: self.completed_spans_dropped }
    }
}

/// Whether `candidate` descends from `ancestor` (or is it), following the
/// recorded parents.
fn is_descendant(contexts: &HashMap<u64, ContextSnapshot>, candidate: ContextToken, ancestor: ContextToken) -> (r: bool)
    ensures
        r == descends(contexts@, candidate, ancestor),
{
    let mut c = candidate;
    let mut steps: usize = contexts.len();
    assert(steps == contexts@.len());
    while !c.is_none()
        invariant
            reaches(contexts@, c, ancestor, steps as nat) == descends(contexts@, candidate, ancestor),
        decreases steps,
    {
        if c == ancestor {
            return true;
        }
        if steps == 0 {
            return false;
        }
        let id = c.into_parts().0;
        match contexts.get(&id) {
            None => {
                return false;
            },
            Some(snapshot) => match snapshot.parent {
                None => {
                    return false;
                },
                Some(p) => {
                    c = p;
                    steps = steps - 1;
                },
            },
        }
    }
    false
}

/// The context current on one thread or worker.
#[derive(Debug)]
pub struct ContextSlot {
    pub current: ContextToken,
}

/// Entering `context` in a slot whose current context is `current`: the
/// new current context, and the token handed back for the exit.
pub open spec fn entered(current: ContextToken, context: ContextToken) -> (ContextToken, ContextToken) {
    (context, current)
}

/// Exiting with the token `previous`: the current context afterwards.
pub open spec fn exited(current: ContextToken, previous: ContextToken) -> ContextToken {
    previous
}

impl ContextSlot {
    pub fn new() -> (r: ContextSlot)
        ensures
            r.current == (ContextToken { id: 0, flags: 0 }),
    {
        ContextSlot { current: ContextToken::none() }
    }

    pub fn capture(&self) -> (r: ContextToken)
        ensures
            r == self.current,
    {
        self.current
    }

    /// Makes `context` current and returns the one it replaces.
    pub fn enter(&mut self, context: ContextToken) -> (previous: ContextToken)
        ensures
            (final(self).current, previous) == entered(old(self).current, context),
    {
        let previous = self.current;
        self.current = context;
        previous
    }

    /// Restores `previous` as current.
    pub fn exit(&mut self, previous: ContextToken)
        ensures
            final(self).current == exited(old(self).current, previous),
    {
        self.current = previous;
    }
}

/// Leaving a context with the token its entry handed back restores the
/// context that was current before the entry, whatever became current in
/// between.
pub proof fn law_exit_restores_entry(before: ContextToken, context: ContextToken, meanwhile: ContextToken)
    ensures
        exited(meanwhile, entered(before, context).1) == before,
{
}

/// A live activation's interest reaches every descendant of its root.
pub proof fn law_activation_reaches_descendants(
    acts: Seq<Activation>,
    m: Map<u64, ContextSnapshot>,
    context: ContextToken,
    i: int,
)
    requires
        0 <= i < acts.len(),
        descends(m, context, acts[i].root),
    ensures
        activation_union(acts, m, context) & acts[i].interest.bits == acts[i].interest.bits,
    decreases acts.len(),
{
    let u = activation_union(acts, m, context);
    let b = acts[i].interest.bits;
    if i == acts.len() - 1 {
        let rest = activation_union(acts.drop_last(), m, context);
        assert((rest | b) & b == b) by (bit_vector);
    } else {
        law_activation_reaches_descendants(acts.drop_last(), m, context, i);
        let rest = activation_union(acts.drop_last(), m, context);
        let add: usize = if descends(m, context, acts.last().root) {
            acts.last().interest.bits
        } else {
            0usize
        };
        assert(acts.drop_last()[i] == acts[i]);
        assert(rest & b == b ==> (rest | add) & b == b) by (bit_vector);
    }
}

/// Following parents in a map that holds more contexts reaches at least
/// as far.
proof fn lemma_reaches_in_larger_map(
    small: Map<u64, ContextSnapshot>,
    large: Map<u64, ContextSnapshot>,
    candidate: ContextToken,
    ancestor: ContextToken,
    steps: nat,
)
    requires
        forall|k: u64| #[trigger] small.contains_key(k) ==> large.contains_key(k) && large[k] == small[k],
        reaches(small, candidate, ancestor, steps),
    ensures
        reaches(large, candidate, ancestor, steps),
    decreases steps,
{
    if candidate.id != 0 && candidate != ancestor && steps > 0 && small.contains_key(candidate.id) {
        assert(large[candidate.id] == small[candidate.id]);
        match small[candidate.id].parent {
            Some(p) => lemma_reaches_in_larger_map(small, large, p, ancestor, (steps - 1) as nat),
            None => {},
        }
    }
}

/// Every context is its own descendant, and descent passes down parent
/// links: a recorded context whose parent descends from `ancestor` without
/// passing back through the context itself also descends from `ancestor`,
/// however long the chain. So an activation of a root reaches its children,
/// grandchildren and every later generation.
pub proof fn law_descent_follows_parent_links(
    m: Map<u64, ContextSnapshot>,
    c: ContextToken,
    p: ContextToken,
    ancestor: ContextToken,
)
    requires
        m.dom().finite(),
    ensures
        ancestor.id != 0 ==> descends(m, ancestor, ancestor),
        c.id != 0 && m.contains_key(c.id) && m[c.id].parent == Some(p) && descends(m.remove(c.id), p, ancestor)
            ==> descends(m, c, ancestor),
{
    if c.id != 0 && m.contains_key(c.id) && m[c.id].parent == Some(p) && descends(m.remove(c.id), p, ancestor) {
        let rest = m.remove(c.id);
        assert(rest.len() == m.len() - 1);
        lemma_reaches_in_larger_map(rest, m, p, ancestor, rest.len());
        assert(m.len() > 0);
        assert(reaches(m, c, ancestor, m.len()));
    }
}

} // verus!
