//! The sector device and its write pipeline.
//!
//! The page manager sits on a sector-addressable device reached through a
//! write-back cache whose pipeline queues sector writes.  Reads observe the
//! queued writes; `commit` makes them durable in enqueue order; `revert`
//! discards them.  This module models that collaborator as an in-memory
//! store, so that everything above it is checked against an exact account of
//! what the device holds before and after a commit.

use crate::codec::clone_bytes;
use crate::codec::push_zeros;
use crate::codec::zeros;
use vstd::prelude::*;

verus! {

/// The size in bytes of a sector, the smallest addressable unit of the
/// device.
pub const SECTOR: usize = 512;

/// A device error: the sector index lies beyond the end of the device.
#[derive(Clone, Copy, PartialEq, Eq, Structural, Debug)]
pub struct Error {
    /// The sector index that could not be reached.
    pub sector: u64,
}

/// One queued sector write.
struct QueuedWrite {
    /// The sector the write goes to.
    cluster: u64,
    /// The sector-sized payload.
    data: Vec<u8>,
}

/// The device: durable sector contents plus the pipeline of queued writes.
pub struct Disk {
    sectors: Vec<Vec<u8>>,
    pipeline: Vec<QueuedWrite>,
}

/// The payload of the last write to sector `c` in the queue `q`, if any.
pub open spec fn queued_view(q: Seq<(u64, Seq<u8>)>, c: u64) -> Option<Seq<u8>>
    decreases q.len(),
{
    if q.len() == 0 {
        None
    } else if q.last().0 == c {
        Some(q.last().1)
    } else {
        queued_view(q.drop_last(), c)
    }
}

impl Disk {
    /// The durable contents of every sector: what the device holds once the
    /// pipeline is discarded.
    pub closed spec fn committed(self) -> Seq<Seq<u8>> {
        self.sectors@.map_values(|v: Vec<u8>| v@)
    }

    /// The queued writes, in enqueue order.
    pub closed spec fn queued(self) -> Seq<(u64, Seq<u8>)> {
        self.pipeline@.map_values(|w: QueuedWrite| (w.cluster, w.data@))
    }

    /// The number of sectors of the device.
    pub open spec fn spec_size(self) -> nat {
        self.committed().len()
    }

    /// The contents of sector `c` as a read observes them: the last queued
    /// write to `c`, or the durable contents.
    pub open spec fn visible_at(self, c: u64) -> Seq<u8> {
        match queued_view(self.queued(), c) {
            Some(d) => d,
            None => self.committed()[c as int],
        }
    }

    /// The contents of every sector as reads observe them.
    pub open spec fn visible(self) -> Seq<Seq<u8>> {
        Seq::new(self.spec_size(), |i: int| self.visible_at(i as u64))
    }

    /// Well-formedness: every sector is sector-sized, and every queued write
    /// is sector-sized and in range.
    pub open spec fn wf(self) -> bool {
        &&& forall|i: int|
            0 <= i < self.committed().len() ==> (#[trigger] self.committed()[i]).len() == SECTOR
        &&& forall|i: int|
            0 <= i < self.queued().len() ==> (#[trigger] self.queued()[i]).0
                < self.committed().len() && self.queued()[i].1.len() == SECTOR
    }

    /// A fresh device of `n` zero-filled sectors with an empty pipeline.
    pub fn new(n: usize) -> (r: Disk)
        ensures
            r.wf(),
            r.spec_size() == n,
            forall|i: int| 0 <= i < n ==> #[trigger] r.committed()[i] == zeros(SECTOR as nat),
            r.queued() == Seq::<(u64, Seq<u8>)>::empty(),
    {
        let mut sectors: Vec<Vec<u8>> = Vec::new();
        let mut i: usize = 0;
        while i < n
            invariant
                i <= n,
                sectors@.len() == i,
                forall|j: int| 0 <= j < i ==> (#[trigger] sectors@[j])@ == zeros(SECTOR as nat),
            decreases n - i,
        {
            let mut sector: Vec<u8> = Vec::new();
            push_zeros(&mut sector, SECTOR);
            proof {
                assert(sector@ =~= zeros(SECTOR as nat));
            }
            sectors.push(sector);
            i = i + 1;
        }
        let disk = Disk { sectors, pipeline: Vec::new() };
        proof {
            assert(disk.queued() =~= Seq::<(u64, Seq<u8>)>::empty());
            assert(forall|j: int|
                0 <= j < n ==> #[trigger] disk.committed()[j] == zeros(SECTOR as nat));
        }
        disk
    }

    /// The number of sectors of the device.
    pub fn size(&self) -> (r: usize)
        ensures
            r == self.spec_size(),
    {
        self.sectors.len()
    }

    /// The number of queued writes on the pipeline.
    pub fn pending(&self) -> (r: usize)
        ensures
            r == self.queued().len(),
    {
        self.pipeline.len()
    }

    /// Read sector `c` through the cache, observing queued writes.
    pub fn read(&self, c: u64) -> (r: Result<Vec<u8>, Error>)
        requires
            self.wf(),
        ensures
            c < self.spec_size() ==> (r matches Ok(d) && d@ == self.visible_at(c) && d@.len()
                == SECTOR),
            c >= self.spec_size() ==> r == Err::<Vec<u8>, Error>(Error { sector: c }),
    {
        if c >= self.sectors.len() as u64 {
            return Err(Error { sector: c });
        }
        let ghost qs = self.queued();
        let mut found: Option<Vec<u8>> = None;
        let mut i: usize = 0;
        while i < self.pipeline.len()
            invariant
                self.wf(),
                i <= self.pipeline@.len(),
                qs == self.queued(),
                match found {
                    Some(d) => queued_view(qs.subrange(0, i as int), c) == Some(d@) && d@.len()
                        == SECTOR,
                    None => queued_view(qs.subrange(0, i as int), c) is None,
                },
            decreases self.pipeline@.len() - i,
        {
            proof {
                assert(qs.subrange(0, i + 1).drop_last() =~= qs.subrange(0, i as int));
                assert(qs.subrange(0, i + 1).last() == qs[i as int]);
            }
            if self.pipeline[i].cluster == c {
                found = Some(clone_bytes(self.pipeline[i].data.as_slice()));
            }
            i = i + 1;
        }
        proof {
            assert(qs.subrange(0, qs.len() as int) =~= qs);
            assert(self.committed()[c as int] == self.sectors@[c as int]@);
            assert((self.committed()[c as int]).len() == SECTOR);
        }
        match found {
            Some(d) => Ok(d),
            None => Ok(clone_bytes(self.sectors[c as usize].as_slice())),
        }
    }

    /// Queue a write of `data` to sector `c` on the pipeline.
    pub fn queue(&mut self, c: u64, data: Vec<u8>) -> (r: Result<(), Error>)
        requires
            old(self).wf(),
            data@.len() == SECTOR,
        ensures
            final(self).wf(),
            final(self).committed() == old(self).committed(),
            c < old(self).spec_size() ==> (r is Ok
                && final(self).queued() == old(self).queued().push((c, data@))),
            c >= old(self).spec_size() ==> (r == Err::<(), Error>(Error { sector: c })
                && final(self).queued() == old(self).queued()),
            forall|x: u64|
                #![trigger final(self).visible_at(x)]
                x < old(self).spec_size() ==> final(self).visible_at(x) == if x == c && r is Ok {
                    data@
                } else {
                    old(self).visible_at(x)
                },
    {
        if c >= self.sectors.len() as u64 {
            return Err(Error { sector: c });
        }
        let ghost old_q = self.queued();
        let ghost d = data@;
        self.pipeline.push(QueuedWrite { cluster: c, data });
        proof {
            assert(self.queued() =~= old_q.push((c, d)));
            assert(self.queued().drop_last() =~= old_q);
            assert forall|x: u64| x < old(self).spec_size() implies #[trigger] self.visible_at(x)
                == if x == c {
                d
            } else {
                old(self).visible_at(x)
            } by {
                assert(self.queued().last() == (c, d));
            }
        }
        Ok(())
    }

    /// Promote every queued write, in enqueue order, to the durable
    /// contents, and empty the pipeline.
    pub fn commit(&mut self)
        requires
            old(self).wf(),
        ensures
            final(self).wf(),
            final(self).spec_size() == old(self).spec_size(),
            final(self).queued() == Seq::<(u64, Seq<u8>)>::empty(),
            forall|x: u64|
                x < old(self).spec_size() ==> #[trigger] final(self).committed()[x as int]
                    == old(self).visible_at(x),
            forall|x: u64|
                x < old(self).spec_size() ==> #[trigger] final(self).visible_at(x)
                    == old(self).visible_at(x),
    {
        let n = self.sectors.len();
        let mut fresh: Vec<Vec<u8>> = Vec::new();
        let mut i: usize = 0;
        while i < n
            invariant
                *self == *old(self),
                self.wf(),
                n == self.spec_size(),
                i <= n,
                fresh@.len() == i,
                forall|j: int|
                    0 <= j < i ==> (#[trigger] fresh@[j])@ == self.visible_at(j as u64)
                        && fresh@[j]@.len() == SECTOR,
            decreases n - i,
        {
            let sector = match self.read(i as u64) {
                Ok(sector) => sector,
                Err(_) => {
                    proof {
                        assert(false);
                    }
                    unreached()
                },
            };
            fresh.push(sector);
            i = i + 1;
        }
        self.sectors = fresh;
        self.pipeline.clear();
        proof {
            assert(self.queued() =~= Seq::<(u64, Seq<u8>)>::empty());
            assert forall|x: u64| x < old(self).spec_size() implies #[trigger] self.committed()[x as int]
                == old(self).visible_at(x) by {
                assert(self.committed()[x as int] == self.sectors@[x as int]@);
            }
            assert forall|j: int| 0 <= j < self.committed().len() implies (#[trigger] self.committed()[j]).len()
                == SECTOR by {
                assert(self.committed()[j] == self.sectors@[j]@);
            }
        }
    }

    /// Discard every queued write; the durable contents stand.
    pub fn revert(&mut self)
        requires
            old(self).wf(),
        ensures
            final(self).wf(),
            final(self).committed() == old(self).committed(),
            final(self).queued() == Seq::<(u64, Seq<u8>)>::empty(),
            forall|x: u64|
                x < old(self).spec_size() ==> #[trigger] final(self).visible_at(x)
                    == old(self).committed()[x as int],
    {
        self.pipeline.clear();
        proof {
            assert(self.queued() =~= Seq::<(u64, Seq<u8>)>::empty());
            assert(self.committed() == old(self).committed());
            assert forall|j: int| 0 <= j < self.committed().len() implies (#[trigger] self.committed()[j]).len()
                == SECTOR by {
                assert(self.committed()[j] == old(self).committed()[j]);
            }
        }
    }
}

} // verus!
