//! Flat spike storage: neuron indices, spike events, bounded spike buffers and
//! index-aligned arenas.

use vstd::prelude::*;
use vstd::std_specs::iter::IteratorSpec;

verus! {

/// A neuron identifier.
#[derive(Debug, Clone, Copy, PartialEq, Eq, Structural)]
pub struct NeuronIdx(pub usize);

/// A spike event for transmission between nodes.
#[derive(Debug, Clone, Copy, PartialEq, Eq, Structural)]
pub struct SpikeEvent {
    /// Source neuron.
    pub src: NeuronIdx,
    /// Destination neuron.
    pub dst: NeuronIdx,
    /// Synaptic delay in ticks.
    pub delay_ticks: u16,
    /// Quantised amplitude (0-255).
    pub amplitude_u8: u8,
    /// Flag byte.
    pub flags: u8,
}

/// The spike indices of one timestep, holding at most `count` of them.
#[derive(Debug, Clone)]
pub struct SpikeBuffer {
    /// Indices of neurons that spiked in this timestep.
    pub indices: Vec<u32>,
    /// Maximum number of spikes this buffer can hold.
    pub count: usize,
}

impl SpikeBuffer {
    /// Creates an empty buffer for at most `max_spikes` spikes.
    pub fn new(max_spikes: usize) -> (b: SpikeBuffer)
        ensures
            b.indices@ == Seq::<u32>::empty(),
            b.count == max_spikes,
    {
        SpikeBuffer { indices: Vec::with_capacity(max_spikes), count: max_spikes }
    }

    /// Removes all recorded spikes.
    pub fn clear(&mut self)
        ensures
            final(self).indices@ == Seq::<u32>::empty(),
            final(self).count == old(self).count,
    {
        self.indices.clear();
    }

    /// Records a spike; fails, leaving the buffer as it was, when it already holds `count` spikes.
    pub fn push(&mut self, neuron_idx: u32) -> (r: Result<(), &'static str>)
        ensures
            final(self).count == old(self).count,
            r is Ok <==> old(self).indices@.len() < old(self).count,
            r is Ok ==> final(self).indices@ == old(self).indices@.push(neuron_idx),
            r is Err ==> final(self).indices@ == old(self).indices@,
            r matches Err(m) ==> m@ == "SpikeBuffer full"@,
            old(self).indices@.len() <= old(self).count ==> final(self).indices@.len() <= final(self).count,
    {
        if self.indices.len() >= self.count {
            return Err("SpikeBuffer full");
        }
        self.indices.push(neuron_idx);
        Ok(())
    }

    /// An iterator over the recorded spike indices, in recording order.
    pub fn iter(&self) -> (it: std::slice::Iter<'_, u32>)
        ensures
            it.remaining().unref() == self.indices@,
    {
        self.indices.as_slice().iter()
    }
}

/// Index-aligned storage of trainer, encoder and decoder objects: entry `i`
/// of each list belongs to the same chat session.
pub struct ChatArena<T, E, D> {
    pub trainers: Vec<T>,
    pub encoders: Vec<E>,
    pub decoders: Vec<D>,
}

impl<T, E, D> ChatArena<T, E, D> {
    /// Creates an empty arena.
    pub fn new() -> (a: ChatArena<T, E, D>)
        ensures
            a.trainers@.len() == 0,
            a.encoders@.len() == 0,
            a.decoders@.len() == 0,
    {
        ChatArena { trainers: Vec::new(), encoders: Vec::new(), decoders: Vec::new() }
    }

    /// Stores a (trainer, encoder, decoder) triple and returns its index, the
    /// number of trainers stored before.
    pub fn push(&mut self, trainer: T, encoder: E, decoder: D) -> (idx: usize)
        ensures
            idx == old(self).trainers@.len(),
            final(self).trainers@ == old(self).trainers@.push(trainer),
            final(self).encoders@ == old(self).encoders@.push(encoder),
            final(self).decoders@ == old(self).decoders@.push(decoder),
    {
        let idx = self.trainers.len();
        self.trainers.push(trainer);
        self.encoders.push(encoder);
        self.decoders.push(decoder);
        idx
    }

    /// The trainer at `idx`, if any, for modification.
    pub fn trainer_mut(&mut self, idx: usize) -> (r: Option<&mut T>)
        ensures
            r is Some <==> idx < old(self).trainers@.len(),
            r matches Some(t) ==> *t == old(self).trainers@[idx as int]
                && final(self).trainers@ == old(self).trainers@.update(idx as int, *final(t)),
            r is None ==> final(self).trainers@ == old(self).trainers@,
            final(self).encoders@ == old(self).encoders@,
            final(self).decoders@ == old(self).decoders@,
    {
        if idx < self.trainers.len() {
            Some(&mut self.trainers[idx])
        } else {
            None
        }
    }

    /// The encoder at `idx`, if any, for modification.
    pub fn encoder_mut(&mut self, idx: usize) -> (r: Option<&mut E>)
        ensures
            r is Some <==> idx < old(self).encoders@.len(),
            r matches Some(t) ==> *t == old(self).encoders@[idx as int]
                && final(self).encoders@ == old(self).encoders@.update(idx as int, *final(t)),
            r is None ==> final(self).encoders@ == old(self).encoders@,
            final(self).trainers@ == old(self).trainers@,
            final(self).decoders@ == old(self).decoders@,
    {
        if idx < self.encoders.len() {
            Some(&mut self.encoders[idx])
        } else {
            None
        }
    }

    /// The decoder at `idx`, if any, for modification.
    pub fn decoder_mut(&mut self, idx: usize) -> (r: Option<&mut D>)
        ensures
            r is Some <==> idx < old(self).decoders@.len(),
            r matches Some(t) ==> *t == old(self).decoders@[idx as int]
                && final(self).decoders@ == old(self).decoders@.update(idx as int, *final(t)),
            r is None ==> final(self).decoders@ == old(self).decoders@,
            final(self).trainers@ == old(self).trainers@,
            final(self).encoders@ == old(self).encoders@,
    {
        if idx < self.decoders.len() {
            Some(&mut self.decoders[idx])
        } else {
            None
        }
    }
}

} // verus!
