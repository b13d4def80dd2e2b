//! The ordering channels of one connection.

use vstd::prelude::*;

use crate::constants::NUMBER_OF_ORDERING_CHANNELS;
use crate::ordering_channel::OrderingChannel;

verus! {

/// One ordering channel per ordering channel index.
pub struct OrderingSystem {
    channels: Vec<OrderingChannel>,
}

impl OrderingSystem {
    /// The channels, indexed by ordering channel index.
    pub closed spec fn channels(&self) -> Seq<OrderingChannel> {
        self.channels@
    }

    /// There is one well-formed channel per ordering channel index.
    pub open spec fn wf(&self) -> bool {
        &&& self.channels().len() == NUMBER_OF_ORDERING_CHANNELS
        &&& forall|i: int| 0 <= i < self.channels().len() ==> #[trigger] self.channels()[i].wf()
    }

    /// A system whose channels are all in their initial state.
    pub fn new() -> (r: OrderingSystem)
        ensures
            r.wf(),
            forall|i: int|
                0 <= i < NUMBER_OF_ORDERING_CHANNELS ==> {
                    let c = #[trigger] r.channels()[i];
                    &&& c.expected_ordering() == 0
                    &&& c.expected_sequencing() == 0
                    &&& c.offset() == 0
                    &&& c.buffered().len() == 0
                },
    {
        let mut channels: Vec<OrderingChannel> = Vec::new();
        let mut i: u8 = 0;
        while i < NUMBER_OF_ORDERING_CHANNELS
            invariant
                i <= NUMBER_OF_ORDERING_CHANNELS,
                channels@.len() == i,
                forall|j: int|
                    0 <= j < i ==> {
                        let c = #[trigger] channels@[j];
                        &&& c.wf()
                        &&& c.expected_ordering() == 0
                        &&& c.expected_sequencing() == 0
                        &&& c.offset() == 0
                        &&& c.buffered().len() == 0
                    },
            decreases NUMBER_OF_ORDERING_CHANNELS - i,
        {
            channels.push(OrderingChannel::new());
            i = i + 1;
        }
        OrderingSystem { channels }
    }

    /// The channel with the given index, if the index is below the number
    /// of ordering channels.
    pub fn get_channel(&mut self, channel_index: u8) -> (r: Option<&mut OrderingChannel>)
        requires
            old(self).wf(),
        ensures
            (r is Some) == (channel_index < NUMBER_OF_ORDERING_CHANNELS),
            r matches Some(c) ==> {
                &&& *c == old(self).channels()[channel_index as int]
                &&& final(self).channels() == old(self).channels().update(
                    channel_index as int,
                    *final(c),
                )
            },
            r is None ==> *final(self) == *old(self),
    {
        if channel_index < NUMBER_OF_ORDERING_CHANNELS {
            Some(&mut self.channels[channel_index as usize])
        } else {
            None
        }
    }
}

} // verus!
