//! Transfer counters of a torrent.
use vstd::prelude::*;

verus! {

#[derive(Debug, Clone, Copy)]
pub struct Stats {
    pub downloaded: u64,
    pub left: u64,
    pub uploaded: u64,
}

/// The bytes of all the downloads together.
pub open spec fn downloads_total(bytes: Seq<usize>) -> nat
    decreases bytes.len(),
{
    if bytes.len() == 0 {
        0
    } else {
        downloads_total(bytes.drop_last()) + bytes.last() as nat
    }
}

/// The counters after the downloads of `bytes`, each applied as
/// `update_downloaded` applies it.
pub open spec fn stats_after(start: Stats, bytes: Seq<usize>) -> Stats
    decreases bytes.len(),
{
    if bytes.len() == 0 {
        start
    } else {
        let s = stats_after(start, bytes.drop_last());
        Stats {
            downloaded: (s.downloaded + bytes.last()) as u64,
            left: (s.left - bytes.last()) as u64,
            uploaded: s.uploaded,
        }
    }
}

/// From a fresh manager for a torrent of `length` bytes, downloads that add
/// up to at most `length` leave: downloaded the sum of them, left the rest,
/// uploaded nothing; downloaded and left always add up to `length`.
pub proof fn law_stats_run(length: u64, bytes: Seq<usize>)
    requires
        downloads_total(bytes) <= length,
    ensures
        stats_after(Stats { downloaded: 0, left: length, uploaded: 0 }, bytes).downloaded
            == downloads_total(bytes),
        stats_after(Stats { downloaded: 0, left: length, uploaded: 0 }, bytes).left == length
            - downloads_total(bytes),
        stats_after(Stats { downloaded: 0, left: length, uploaded: 0 }, bytes).uploaded == 0,
    decreases bytes.len(),
{
    if bytes.len() > 0 {
        law_stats_run(length, bytes.drop_last());
    }
}

/// Keeps the transfer counters of a torrent.
#[derive(Debug)]
pub struct StatsManager {
    stats: Stats,
}

impl StatsManager {
    pub closed spec fn spec_stats(&self) -> Stats {
        self.stats
    }

    /// Nothing transferred yet: the whole torrent is left.
    pub fn new(torrent_length: u64) -> (r: Self)
        ensures
            r.spec_stats().downloaded == 0,
            r.spec_stats().left == torrent_length,
            r.spec_stats().uploaded == 0,
    {
        Self { stats: Stats { downloaded: 0, left: torrent_length, uploaded: 0 } }
    }

    /// Counts `bytes` more as downloaded and no longer left.
    pub fn update_downloaded(&mut self, bytes: usize)
        requires
            old(self).spec_stats().downloaded + bytes <= u64::MAX,
            old(self).spec_stats().left >= bytes,
        ensures
            final(self).spec_stats().downloaded == old(self).spec_stats().downloaded + bytes,
            final(self).spec_stats().left == old(self).spec_stats().left - bytes,
            final(self).spec_stats().uploaded == old(self).spec_stats().uploaded,
            forall|done: Seq<usize>, start: Stats|
                old(self).spec_stats() == stats_after(start, done) ==> final(self).spec_stats()
                    == #[trigger] stats_after(start, done.push(bytes)),
    {
        proof {
            assert forall|done: Seq<usize>, start: Stats|
                old(self).spec_stats() == stats_after(start, done) implies stats_after(
                start,
                done.push(bytes),
            ) == Stats {
                downloaded: (old(self).spec_stats().downloaded + bytes) as u64,
                left: (old(self).spec_stats().left - bytes) as u64,
                uploaded: old(self).spec_stats().uploaded,
            } by {
                assert(done.push(bytes).drop_last() =~= done);
            }
        }
        self.stats.downloaded = self.stats.downloaded + bytes as u64;
        self.stats.left = self.stats.left - bytes as u64;
    }

    /// The counters as they stand.
    pub fn fetch(&self) -> (r: Stats)
        ensures
            r == self.spec_stats(),
    {
        self.stats
    }
}

} // verus!
