//! How reliable the network is.

use vstd::prelude::*;

verus! {

/// A model of the reliability of a network, asked once for each message that a node takes in.
/// The answers may depend on chance.
pub trait NetworkReliability {
    /// Whether the message is kept. A message that is not kept is lost.
    fn sample_keep(&self) -> bool;

    /// For how many nanoseconds a message that is kept is held back.
    fn sample_delay(&self) -> u128;
}

/// A network on which every message is kept and none is held back.
#[derive(Debug, Clone, Copy)]
pub struct DummyReliability {}

impl NetworkReliability for DummyReliability {
    fn sample_keep(&self) -> (keep: bool)
        ensures
            keep,
    {
        true
    }

    fn sample_delay(&self) -> (delay: u128)
        ensures
            delay == 0,
    {
        0
    }
}

impl<R: NetworkReliability> NetworkReliability for &R {
    fn sample_keep(&self) -> (keep: bool)
        ensures
            call_ensures(R::sample_keep, (*self,), keep),
    {
        (*self).sample_keep()
    }

    fn sample_delay(&self) -> (delay: u128)
        ensures
            call_ensures(R::sample_delay, (*self,), delay),
    {
        (*self).sample_delay()
    }
}

/// What becomes of a message that a node has taken in.
#[derive(Clone, Copy, Debug, PartialEq, Eq, Structural)]
pub enum Fate {
    /// It is delivered before the next message is looked at.
    InOrder,
    /// It is lost.
    Lost,
    /// It is delivered on its own, after this many nanoseconds.
    Delayed(u128),
}

/// The fates that a node with this configuration can give to a message: the reliability model
/// decides where there is one, and without one every message is delivered in order.
pub open spec fn possible_fate<R: NetworkReliability>(config: Option<R>, fate: Fate) -> bool {
    match (config, fate) {
        (None, Fate::InOrder) => true,
        (Some(model), Fate::Lost) => call_ensures(R::sample_keep, (&model,), false),
        (Some(model), Fate::Delayed(delay)) => call_ensures(R::sample_keep, (&model,), true)
            && call_ensures(R::sample_delay, (&model,), delay),
        _ => false,
    }
}

/// What a reliability model was asked, and what it answered last.
#[derive(Clone, Copy, Debug, PartialEq, Eq, Structural)]
pub struct Asked {
    /// How often it was asked whether a message is kept; the count starts again behind the
    /// largest `u64`.
    pub keeps: u64,
    /// The last answer to that.
    pub kept: bool,
    /// How often it was asked how long a message is held back, counted alike.
    pub delays: u64,
    /// The last answer to that.
    pub delay: u128,
}

/// A count that has gone up by one.
pub open spec fn one_more(count: u64) -> u64 {
    if count == u64::MAX {
        0
    } else {
        (count + 1) as u64
    }
}

impl Asked {
    /// Nothing was asked yet.
    pub open spec fn nothing() -> Asked {
        Asked { keeps: 0, kept: false, delays: 0, delay: 0 }
    }

    /// One more question whether a message is kept.
    pub open spec fn after_keep(self, keep: bool) -> Asked {
        Asked { keeps: one_more(self.keeps), kept: keep, ..self }
    }

    /// One more question how long a message is held back.
    pub open spec fn after_delay(self, delay: u128) -> Asked {
        Asked { delays: one_more(self.delays), delay, ..self }
    }

    /// What was asked once the fate of one more message is known.
    pub open spec fn after_fate(self, fate: Fate) -> Asked {
        match fate {
            Fate::InOrder => self,
            Fate::Lost => self.after_keep(false),
            Fate::Delayed(delay) => self.after_keep(true).after_delay(delay),
        }
    }
}

/// A reliability model that keeps count of what it is asked. Whoever holds it can ask the model
/// only through it.
#[derive(Debug)]
pub struct Recorded<R> {
    /// The model.
    model: R,
    /// What it was asked.
    asked: Asked,
}

impl<R> Recorded<R> {
    /// The model.
    pub closed spec fn model(self) -> R {
        self.model
    }

    /// What the model was asked.
    pub closed spec fn asked(self) -> Asked {
        self.asked
    }

    /// A model that was asked nothing yet.
    pub fn new(model: R) -> (recorded: Recorded<R>)
        ensures
            recorded.model() == model,
            recorded.asked() == Asked::nothing(),
    {
        Recorded { model, asked: Asked { keeps: 0, kept: false, delays: 0, delay: 0 } }
    }
}

impl<R: NetworkReliability> Recorded<R> {
    /// Asks the model whether a message is kept.
    fn ask_keep(&mut self) -> (keep: bool)
        ensures
            final(self).model() == old(self).model(),
            final(self).asked() == old(self).asked().after_keep(keep),
            call_ensures(R::sample_keep, (&old(self).model(),), keep),
    {
        let keep = self.model.sample_keep();
        self.asked.keeps = self.asked.keeps.wrapping_add(1);
        self.asked.kept = keep;
        keep
    }

    /// Asks the model how long a message is held back.
    fn ask_delay(&mut self) -> (delay: u128)
        ensures
            final(self).model() == old(self).model(),
            final(self).asked() == old(self).asked().after_delay(delay),
            call_ensures(R::sample_delay, (&old(self).model(),), delay),
    {
        let delay = self.model.sample_delay();
        self.asked.delays = self.asked.delays.wrapping_add(1);
        self.asked.delay = delay;
        delay
    }

    /// Asks the model what becomes of a message: once whether it is kept, and, where it is, once
    /// how long it is held back.
    pub fn draw(&mut self) -> (fate: Fate)
        ensures
            final(self).model() == old(self).model(),
            final(self).asked() == old(self).asked().after_fate(fate),
            possible_fate(Some(old(self).model()), fate),
    {
        if self.ask_keep() {
            Fate::Delayed(self.ask_delay())
        } else {
            Fate::Lost
        }
    }
}

/// Asks the reliability model, where there is one, what becomes of a message.
pub fn draw_fate<R: NetworkReliability>(config: &Option<R>) -> (fate: Fate)
    ensures
        possible_fate(*config, fate),
        fate is InOrder <==> *config is None,
{
    match config {
        None => Fate::InOrder,
        Some(model) => Recorded::new(model).draw(),
    }
}

/// How long to wait before a delayed message is delivered: not at all when the delay is zero.
pub open spec fn pause(delay: u128) -> Option<u128> {
    if delay > 0 {
        Some(delay)
    } else {
        None
    }
}

/// [`DummyReliability`] loses nothing and holds nothing back.
pub proof fn law_dummy_is_reliable(model: DummyReliability, fate: Fate)
    requires
        possible_fate(Some(model), fate),
    ensures
        fate == Fate::Delayed(0),
{
}

} // verus!
