//! Channel endpoint handles.
//!
//! A driver creates one sender and one receiver handle per channel, each
//! naming the channel's index in the simulation's table; block
//! constructors consume them.  The drivers' fixed wirings attach exactly
//! one sender and one receiver to every channel.

use vstd::prelude::*;

verus! {

/// The sending endpoint of one channel.
#[derive(Debug)]
pub struct Sender {
    pub id: usize,
}

/// The receiving endpoint of one channel.
#[derive(Debug)]
pub struct Receiver {
    pub id: usize,
}

/// A fan-out over one or more channels: an enqueue clones the payload into
/// every target once all of them have space.
#[derive(Debug)]
pub struct BroadcastSender {
    pub targets: Vec<Sender>,
}

/// The channel indices a list of receiver handles names.
pub open spec fn receiver_ids(handles: Seq<Receiver>) -> Seq<usize> {
    handles.map_values(|h: Receiver| h.id)
}

/// The channel indices a list of sender handles names.
pub open spec fn sender_ids(handles: Seq<Sender>) -> Seq<usize> {
    handles.map_values(|h: Sender| h.id)
}

/// Extracts the channel indices from a list of receiver handles.
pub fn receiver_id_vec(handles: &Vec<Receiver>) -> (r: Vec<usize>)
    ensures
        r@ == receiver_ids(handles@),
{
    let mut out: Vec<usize> = Vec::new();
    let mut i: usize = 0;
    while i < handles.len()
        invariant
            i <= handles.len(),
            out@ =~= receiver_ids(handles@).subrange(0, i as int),
        decreases handles.len() - i,
    {
        out.push(handles[i].id);
        proof {
            assert(out@ =~= receiver_ids(handles@).subrange(0, i + 1 as int));
        }
        i = i + 1;
    }
    proof {
        assert(out@ =~= receiver_ids(handles@));
    }
    out
}

/// Extracts the channel indices from a broadcast group.
pub fn sender_id_vec(handles: &Vec<Sender>) -> (r: Vec<usize>)
    ensures
        r@ == sender_ids(handles@),
{
    let mut out: Vec<usize> = Vec::new();
    let mut i: usize = 0;
    while i < handles.len()
        invariant
            i <= handles.len(),
            out@ =~= sender_ids(handles@).subrange(0, i as int),
        decreases handles.len() - i,
    {
        out.push(handles[i].id);
        proof {
            assert(out@ =~= sender_ids(handles@).subrange(0, i + 1 as int));
        }
        i = i + 1;
    }
    proof {
        assert(out@ =~= sender_ids(handles@));
    }
    out
}

} // verus!
