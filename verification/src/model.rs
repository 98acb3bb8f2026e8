//! The model that learns priorities from finished nodes.

use vstd::prelude::*;

use crate::priority;
use crate::priority::Tree32;

verus! {

/// A tree and the samples it is trained on from time to time.
pub struct Model {
    pub tree: Tree32,
    /// The latest samples, oldest first.
    pub buffer: Vec<(u16, bool)>,
    /// How many samples came since the last training.
    pub new_since_train: usize,
    /// Counts trainings, modulo 256.
    pub generation: u8,
    /// How many samples are kept.
    pub capacity: usize,
    /// After how many new samples the tree is trained.
    pub retrain_every: usize,
}

/// The latest samples after one more, the oldest of them dropped if there is no room.
pub open spec fn remembered(buffer: Seq<(u16, bool)>, capacity: nat, sample: (u16, bool)) -> Seq<(u16, bool)> {
    if buffer.len() == capacity {
        buffer.skip(1).push(sample)
    } else {
        buffer.push(sample)
    }
}

impl Model {
    /// Whether no more is kept than may be, and training is never overdue.
    pub open spec fn wf(&self) -> bool {
        &&& 0 < self.capacity
        &&& 0 < self.retrain_every
        &&& self.buffer@.len() <= self.capacity
        &&& self.new_since_train < self.retrain_every
    }

    /// A model that has learned nothing.
    pub fn new(capacity: usize, retrain_every: usize) -> (m: Self)
        requires
            capacity > 0,
            retrain_every > 0,
        ensures
            m.wf(),
            m.buffer@.len() == 0,
            m.new_since_train == 0,
            m.generation == 0,
            m.capacity == capacity,
            m.retrain_every == retrain_every,
            m.tree.internals@ == Seq::new(15, |i: int| 0u8),
            m.tree.leaves == 0xFFFF,
            m.tree.leaf_pure == 0,
            m.tree.gen == 0,
    {
        Model {
            tree: Tree32::baseline(),
            buffer: Vec::new(),
            new_since_train: 0,
            generation: 0,
            capacity,
            retrain_every,
        }
    }

    /// Learns from a finished node. When enough samples have come since the last training, the
    /// tree is trained on all that are kept.
    pub fn record_training_sample(&mut self, features: u16, label: bool)
        requires
            old(self).wf(),
        ensures
            final(self).wf(),
            final(self).capacity == old(self).capacity,
            final(self).retrain_every == old(self).retrain_every,
            final(self).buffer@ == remembered(
                old(self).buffer@,
                old(self).capacity as nat,
                (features, label),
            ),
            final(self).buffer@.last() == (features, label),
            final(self).buffer@.len() >= old(self).buffer@.len(),
            final(self).new_since_train == 0 <==> old(self).new_since_train + 1 == old(self).retrain_every,
            if old(self).new_since_train + 1 < old(self).retrain_every {
                &&& final(self).new_since_train == old(self).new_since_train + 1
                &&& final(self).tree == old(self).tree
                &&& final(self).generation == old(self).generation
            } else {
                &&& final(self).new_since_train == 0
                &&& final(self).generation == (old(self).generation + 1) % 256
                &&& final(self).tree.gen == final(self).generation
                &&& priority::is_trained(final(self).tree, final(self).buffer@)
            },
    {
        let ghost before = self.buffer@;
        if self.buffer.len() == self.capacity {
            let _ = self.buffer.remove(0);
            assert(self.buffer@ =~= before.skip(1));
        }
        self.buffer.push((features, label));
        self.new_since_train = self.new_since_train + 1;
        if self.new_since_train >= self.retrain_every {
            self.generation = self.generation.wrapping_add(1);
            self.tree = Tree32::train(self.buffer.as_slice(), self.generation);
            self.new_since_train = 0;
        }
    }
}

/// What is remembered are the latest samples, the newest last, and as many as there is room for:
/// none is left out or turned round, and only the oldest is ever forgotten.
pub proof fn law_latest_samples_are_kept(buffer: Seq<(u16, bool)>, capacity: nat, sample: (u16, bool))
    requires
        0 < capacity,
        buffer.len() <= capacity,
    ensures
        ({
            let r = remembered(buffer, capacity, sample);
            let all = buffer.push(sample);
            let dropped = all.len() - r.len();
            &&& r.last() == sample
            &&& r.len() == (if buffer.len() < capacity {
                buffer.len() + 1
            } else {
                capacity
            })
            &&& forall|i: int| 0 <= i < r.len() ==> #[trigger] r[i] == all[i + dropped]
        }),
{
}

} // verus!
