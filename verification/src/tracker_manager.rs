//! The trackers of a torrent, and the peers they have made known.
use vstd::prelude::*;
use crate::text::{url_parse, parse_url};
use crate::tracker::Tracker;
use crate::peer::PeerAddr;
use crate::torrent::{add_new_addrs, no_repeats, law_add_new_addrs};

verus! {

/// The URLs of the tiers, tier after tier.
pub open spec fn flat_tiers(tiers: Seq<Seq<Seq<char>>>) -> Seq<Seq<char>>
    decreases tiers.len(),
{
    if tiers.len() == 0 {
        Seq::empty()
    } else {
        flat_tiers(tiers.drop_last()) + tiers.last()
    }
}

/// The serialized URLs of the texts that parse as URLs, in order.
pub open spec fn usable_urls(texts: Seq<Seq<char>>) -> Seq<Seq<char>>
    decreases texts.len(),
{
    if texts.len() == 0 {
        Seq::empty()
    } else {
        match url_parse(texts.last()) {
            Some(u) => usable_urls(texts.drop_last()).push(u),
            None => usable_urls(texts.drop_last()),
        }
    }
}

/// The texts that do not parse as URLs, in order.
pub open spec fn unusable_urls(texts: Seq<Seq<char>>) -> Seq<Seq<char>>
    decreases texts.len(),
{
    if texts.len() == 0 {
        Seq::empty()
    } else {
        match url_parse(texts.last()) {
            Some(_) => unusable_urls(texts.drop_last()),
            None => unusable_urls(texts.drop_last()).push(texts.last()),
        }
    }
}

pub open spec fn strings_view(v: Seq<String>) -> Seq<Seq<char>> {
    Seq::new(v.len(), |i: int| v[i]@)
}

pub open spec fn tracker_urls_of(v: Seq<Tracker>) -> Seq<Seq<char>> {
    Seq::new(v.len(), |i: int| v[i].spec_url())
}

/// The trackers of the announce URL and of every announce-list URL, in that
/// order, for the URLs that parse; and the URLs that do not.
pub fn collect_trackers(announce: &String, announce_list: &Vec<Vec<String>>) -> (r: (
    Vec<Tracker>,
    Vec<String>,
))
    ensures
        ({
            let texts = seq![announce@] + flat_tiers(
                Seq::new(announce_list@.len(), |i: int| strings_view(announce_list@[i]@)),
            );
            &&& tracker_urls_of(r.0@) == usable_urls(texts)
            &&& strings_view(r.1@) == unusable_urls(texts)
            &&& forall|k: int|
                0 <= k < r.0@.len() ==> (#[trigger] r.0@[k]).spec_interval() == 0
                    && r.0@[k].spec_peers().len() == 0
        }),
{
    let ghost tiers = Seq::new(announce_list@.len(), |i: int| strings_view(announce_list@[i]@));
    let mut trackers: Vec<Tracker> = Vec::new();
    let mut rejected: Vec<String> = Vec::new();
    let ghost mut texts: Seq<Seq<char>> = seq![announce@];
    assert(texts.drop_last() =~= Seq::<Seq<char>>::empty());
    assert(texts.last() == announce@);
    assert(usable_urls(Seq::<Seq<char>>::empty()) =~= Seq::<Seq<char>>::empty());
    assert(unusable_urls(Seq::<Seq<char>>::empty()) =~= Seq::<Seq<char>>::empty());
    match parse_url(announce.as_str()) {
        Ok(url) => {
            trackers.push(Tracker::new(url));
            assert(tracker_urls_of(trackers@) =~= usable_urls(texts));
            assert(strings_view(rejected@) =~= unusable_urls(texts));
        },
        Err(_) => {
            rejected.push(announce.clone());
            assert(tracker_urls_of(trackers@) =~= usable_urls(texts));
            assert(strings_view(rejected@) =~= unusable_urls(texts));
        },
    }
    let mut i: usize = 0;
    assert(tiers.take(0) =~= Seq::<Seq<Seq<char>>>::empty());
    assert(texts =~= seq![announce@] + flat_tiers(tiers.take(0)));
    while i < announce_list.len()
        invariant
            0 <= i <= announce_list.len(),
            tiers == Seq::new(announce_list@.len(), |i: int| strings_view(announce_list@[i]@)),
            texts == seq![announce@] + flat_tiers(tiers.take(i as int)),
            tracker_urls_of(trackers@) == usable_urls(texts),
            strings_view(rejected@) == unusable_urls(texts),
            forall|k: int|
                0 <= k < trackers@.len() ==> (#[trigger] trackers@[k]).spec_interval() == 0
                    && trackers@[k].spec_peers().len() == 0,
        decreases announce_list.len() - i,
    {
        let tier = &announce_list[i];
        let ghost start = texts;
        let mut j: usize = 0;
        assert(strings_view(tier@).take(0) =~= Seq::<Seq<char>>::empty());
        assert(texts =~= start + strings_view(tier@).take(0));
        while j < tier.len()
            invariant
                0 <= j <= tier.len(),
                texts == start + strings_view(tier@).take(j as int),
                tracker_urls_of(trackers@) == usable_urls(texts),
                strings_view(rejected@) == unusable_urls(texts),
                forall|k: int|
                    0 <= k < trackers@.len() ==> (#[trigger] trackers@[k]).spec_interval() == 0
                        && trackers@[k].spec_peers().len() == 0,
            decreases tier.len() - j,
        {
            let text = &tier[j];
            let ghost before = texts;
            proof {
                texts = texts.push(text@);
                assert(texts.drop_last() =~= before);
                assert(texts =~= start + strings_view(tier@).take(j + 1));
            }
            match parse_url(text.as_str()) {
                Ok(url) => {
                    let ghost t0 = trackers@;
                    trackers.push(Tracker::new(url));
                    assert(tracker_urls_of(trackers@) =~= tracker_urls_of(t0).push(url@));
                },
                Err(_) => {
                    let ghost r0 = rejected@;
                    rejected.push(text.clone());
                    assert(strings_view(rejected@) =~= strings_view(r0).push(text@));
                },
            }
            j = j + 1;
        }
        proof {
            assert(strings_view(tier@).take(tier.len() as int) =~= strings_view(tier@));
            assert(tiers.take(i + 1).drop_last() =~= tiers.take(i as int));
            assert(tiers[i as int] == strings_view(tier@));
            assert(texts =~= seq![announce@] + flat_tiers(tiers.take(i + 1)));
        }
        i = i + 1;
    }
    assert(tiers.take(announce_list.len() as int) =~= tiers);
    (trackers, rejected)
}

/// The peers that the trackers of a torrent have made known, each once.
#[derive(Debug)]
pub struct PeerRegistry {
    known: Vec<PeerAddr>,
}

impl PeerRegistry {
    pub closed spec fn spec_known(&self) -> Seq<PeerAddr> {
        self.known@
    }

    pub fn new() -> (r: Self)
        ensures
            r.spec_known().len() == 0,
            r.spec_known() == registered_after(Seq::empty(), Seq::empty()),
    {
        Self { known: Vec::new() }
    }

    pub fn contains(&self, addr: PeerAddr) -> (r: bool)
        ensures
            r == self.spec_known().contains(addr),
    {
        let mut i: usize = 0;
        while i < self.known.len()
            invariant
                0 <= i <= self.known.len(),
                forall|k: int| 0 <= k < i ==> self.known@[k] != addr,
            decreases self.known.len() - i,
        {
            if self.known[i] == addr {
                return true;
            }
            i = i + 1;
        }
        false
    }

    /// Records the addresses a tracker gave; returns those not known before,
    /// in order, each once.
    pub fn register(&mut self, addrs: Vec<PeerAddr>) -> (new: Vec<PeerAddr>)
        ensures
            final(self).spec_known() == add_new_addrs(old(self).spec_known(), addrs@),
            final(self).spec_known() == old(self).spec_known() + new@,
            forall|start: Seq<PeerAddr>, batches: Seq<Seq<PeerAddr>>|
                old(self).spec_known() == registered_after(start, batches)
                    ==> final(self).spec_known() == #[trigger] registered_after(start, batches.push(addrs@)),
    {
        proof {
            assert forall|start: Seq<PeerAddr>, batches: Seq<Seq<PeerAddr>>|
                old(self).spec_known() == registered_after(start, batches) implies registered_after(
                start,
                batches.push(addrs@),
            ) == add_new_addrs(old(self).spec_known(), addrs@) by {
                assert(batches.push(addrs@).drop_last() =~= batches);
            }
        }
        let ghost start = self.known@;
        let mut new: Vec<PeerAddr> = Vec::new();
        let mut i: usize = 0;
        assert(addrs@.take(0) =~= Seq::<PeerAddr>::empty());
        assert(start + new@ =~= start);
        while i < addrs.len()
            invariant
                0 <= i <= addrs.len(),
                self.known@ == add_new_addrs(start, addrs@.take(i as int)),
                self.known@ == start + new@,
                start == old(self).known@,
            decreases addrs.len() - i,
        {
            let addr = addrs[i];
            assert(addrs@.take(i + 1).drop_last() =~= addrs@.take(i as int));
            if !self.contains(addr) {
                self.known.push(addr);
                new.push(addr);
                assert(self.known@ =~= start + new@);
            }
            i = i + 1;
        }
        assert(addrs@.take(addrs.len() as int) =~= addrs@);
        new
    }
}

/// The known addresses after registering the batches one after another.
pub open spec fn registered_after(known: Seq<PeerAddr>, batches: Seq<Seq<PeerAddr>>) -> Seq<PeerAddr>
    decreases batches.len(),
{
    if batches.len() == 0 {
        known
    } else {
        add_new_addrs(registered_after(known, batches.drop_last()), batches.last())
    }
}

/// Over any run of announces, no address is handed on twice nor one that
/// was known before: what is handed on (all that follows the addresses known
/// at the start) repeats nothing, the start stays first, and every address of
/// every batch is known at the end.
pub proof fn law_registry_run(known: Seq<PeerAddr>, batches: Seq<Seq<PeerAddr>>)
    requires
        no_repeats(known),
    ensures
        no_repeats(registered_after(known, batches)),
        registered_after(known, batches).len() >= known.len(),
        registered_after(known, batches).subrange(0, known.len() as int) == known,
        forall|b: int, k: int|
            0 <= b < batches.len() && 0 <= k < batches[b].len() ==> registered_after(
                known,
                batches,
            ).contains(#[trigger] batches[b][k]),
    decreases batches.len(),
{
    if batches.len() > 0 {
        let prev = batches.drop_last();
        law_registry_run(known, prev);
        let before = registered_after(known, prev);
        let after = registered_after(known, batches);
        law_add_new_addrs(before, batches.last());
        assert(after.subrange(0, known.len() as int) =~= before.subrange(0, known.len() as int))
            by {
            assert(after.subrange(0, before.len() as int) == before);
        }
        assert forall|b: int, k: int|
            0 <= b < batches.len() && 0 <= k < batches[b].len() implies after.contains(
            #[trigger] batches[b][k],
        ) by {
            if b < batches.len() - 1 {
                assert(prev[b] == batches[b]);
                assert(before.contains(prev[b][k]));
                let m = choose|m: int| 0 <= m < before.len() && before[m] == prev[b][k];
                assert(after.subrange(0, before.len() as int)[m] == after[m]);
                assert(after[m] == batches[b][k]);
            } else {
                assert(batches[b] == batches.last());
            }
        }
    }
}

} // verus!
