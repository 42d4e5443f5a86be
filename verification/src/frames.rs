//! The live frame store: the latest parsed frame of every PLC.
//!
//! One writer — the ingestion side — publishes each completed frame
//! under its PLC identity, overwriting the previous one; readers take
//! the most recent. One entry per identity, always.

use crate::parser::PlcDataPacket;
use vstd::prelude::*;

verus! {

/// The latest frame stored for `ip`, if any.
pub open spec fn frame_lookup(frames: Seq<PlcDataPacket>, ip: Seq<char>) -> Option<PlcDataPacket>
    decreases frames.len(),
{
    if frames.len() == 0 {
        None
    } else if frames.first().ip@ == ip {
        Some(frames.first())
    } else {
        frame_lookup(frames.drop_first(), ip)
    }
}

/// Holds the most recent `PlcDataPacket` of each PLC identity.
#[derive(Debug)]
pub struct LiveFrameStore {
    pub frames: Vec<PlcDataPacket>,
}

impl LiveFrameStore {
    /// An empty store.
    pub fn new() -> (r: LiveFrameStore)
        ensures
            r.frames@.len() == 0,
    {
        LiveFrameStore { frames: Vec::new() }
    }

    /// Finds the entry of `ip`, first match.
    fn find_frame(&self, ip: &str) -> (r: Option<usize>)
        ensures
            match r {
                Some(i) => {
                    &&& i < self.frames@.len()
                    &&& self.frames@[i as int].ip@ == ip@
                    &&& frame_lookup(self.frames@, ip@) == Some(self.frames@[i as int])
                    &&& forall|j: int| 0 <= j < i ==> (#[trigger] self.frames@[j]).ip@ != ip@
                },
                None => frame_lookup(self.frames@, ip@) is None,
            },
    {
        proof {
            assert(self.frames@.skip(0) =~= self.frames@);
        }
        let mut i: usize = 0;
        while i < self.frames.len()
            invariant
                0 <= i <= self.frames@.len(),
                frame_lookup(self.frames@, ip@) == frame_lookup(
                    self.frames@.skip(i as int),
                    ip@,
                ),
                forall|j: int| 0 <= j < i ==> (#[trigger] self.frames@[j]).ip@ != ip@,
            decreases self.frames@.len() - i,
        {
            proof {
                assert(self.frames@.skip(i as int).first() == self.frames@[i as int]);
                assert(self.frames@.skip(i as int).drop_first() =~= self.frames@.skip(
                    i as int + 1,
                ));
            }
            if crate::parser::str_eq(self.frames[i].ip.as_str(), ip) {
                return Some(i);
            }
            i = i + 1;
        }
        proof {
            assert(self.frames@.skip(self.frames@.len() as int).len() == 0);
        }
        None
    }

    /// Publishes a frame: it overwrites the previous frame of the
    /// same identity, and every other identity's frame is untouched.
    pub fn publish(&mut self, packet: PlcDataPacket)
        ensures
            frame_lookup(final(self).frames@, packet.ip@) == Some(packet),
            forall|ip: Seq<char>|
                ip != packet.ip@ ==> frame_lookup(final(self).frames@, ip) == frame_lookup(
                    old(self).frames@,
                    ip,
                ),
    {
        let found = self.find_frame(packet.ip.as_str());
        match found {
            Some(i) => {
                self.frames.set(i, packet);
                proof {
                    lemma_frame_lookup_update(old(self).frames@, self.frames@[i as int], i as int);
                }
            },
            None => {
                let ghost before = self.frames@;
                self.frames.push(packet);
                proof {
                    lemma_frame_lookup_push(before, self.frames@.last());
                }
            },
        }
    }

    /// The latest frame of `ip`, if one was ever published.
    pub fn get_plc_data(&self, ip: &str) -> (r: Option<&PlcDataPacket>)
        ensures
            match r {
                Some(p) => frame_lookup(self.frames@, ip@) == Some(*p),
                None => frame_lookup(self.frames@, ip@) is None,
            },
    {
        match self.find_frame(ip) {
            Some(i) => Some(&self.frames[i]),
            None => None,
        }
    }

    /// How many identities have a frame.
    pub fn len(&self) -> (r: usize)
        ensures
            r == self.frames@.len(),
    {
        self.frames.len()
    }
}

/// Updating the first identity match makes the lookup return the new
/// frame and leaves other identities alone.
proof fn lemma_frame_lookup_update(frames: Seq<PlcDataPacket>, packet: PlcDataPacket, i: int)
    requires
        0 <= i < frames.len(),
        frames[i].ip@ == packet.ip@,
        forall|j: int| 0 <= j < i ==> (#[trigger] frames[j]).ip@ != packet.ip@,
    ensures
        frame_lookup(frames.update(i, packet), packet.ip@) == Some(packet),
        forall|ip: Seq<char>|
            ip != packet.ip@ ==> frame_lookup(frames.update(i, packet), ip) == frame_lookup(
                frames,
                ip,
            ),
    decreases frames.len(),
{
    if i == 0 {
        assert(frames.update(0, packet).first() == packet);
        assert forall|ip: Seq<char>|
            ip != packet.ip@ implies frame_lookup(frames.update(0, packet), ip) == frame_lookup(
            frames,
            ip,
        ) by {
            assert(frames.update(0, packet).drop_first() =~= frames.drop_first());
        }
    } else {
        assert(frames.update(i, packet).first() == frames.first());
        assert(frames.update(i, packet).drop_first() =~= frames.drop_first().update(
            i - 1,
            packet,
        ));
        assert(frames.drop_first()[i - 1] == frames[i]);
        assert forall|j: int|
            0 <= j < i - 1 implies (#[trigger] frames.drop_first()[j]).ip@ != packet.ip@ by {
            assert(frames.drop_first()[j] == frames[j + 1]);
        }
        lemma_frame_lookup_update(frames.drop_first(), packet, i - 1);
        assert(frames[0] == frames.first());
        assert forall|ip: Seq<char>|
            ip != packet.ip@ implies frame_lookup(frames.update(i, packet), ip) == frame_lookup(
            frames,
            ip,
        ) by {
            if frames.first().ip@ != ip {
                assert(frame_lookup(frames.update(i, packet), ip) == frame_lookup(
                    frames.drop_first().update(i - 1, packet),
                    ip,
                ));
                assert(frame_lookup(frames, ip) == frame_lookup(frames.drop_first(), ip));
            }
        }
    }
}

/// Pushing a frame for a fresh identity makes the lookup return it
/// and leaves other identities alone.
proof fn lemma_frame_lookup_push(frames: Seq<PlcDataPacket>, packet: PlcDataPacket)
    requires
        frame_lookup(frames, packet.ip@) is None,
    ensures
        frame_lookup(frames.push(packet), packet.ip@) == Some(packet),
        forall|ip: Seq<char>|
            ip != packet.ip@ ==> frame_lookup(frames.push(packet), ip) == frame_lookup(frames, ip),
    decreases frames.len(),
{
    if frames.len() == 0 {
        assert(frames.push(packet).first() == packet);
        assert forall|ip: Seq<char>|
            ip != packet.ip@ implies frame_lookup(frames.push(packet), ip) == frame_lookup(
            frames,
            ip,
        ) by {
            assert(frames.push(packet).drop_first() =~= Seq::<PlcDataPacket>::empty());
            assert(frame_lookup(Seq::<PlcDataPacket>::empty(), ip) is None);
        }
    } else {
        assert(frames.push(packet).first() == frames.first());
        assert(frames.push(packet).drop_first() =~= frames.drop_first().push(packet));
        lemma_frame_lookup_push(frames.drop_first(), packet);
        assert forall|ip: Seq<char>|
            ip != packet.ip@ implies frame_lookup(frames.push(packet), ip) == frame_lookup(
            frames,
            ip,
        ) by {
            if frames.first().ip@ != ip {
                assert(frame_lookup(frames.push(packet), ip) == frame_lookup(
                    frames.drop_first().push(packet),
                    ip,
                ));
                assert(frame_lookup(frames.drop_first().push(packet), ip) == frame_lookup(
                    frames.drop_first(),
                    ip,
                ));
                assert(frame_lookup(frames, ip) == frame_lookup(frames.drop_first(), ip));
            } else {
                assert(frame_lookup(frames.push(packet), ip) == Some(frames.first()));
                assert(frame_lookup(frames, ip) == Some(frames.first()));
            }
        }
    }
}

} // verus!
