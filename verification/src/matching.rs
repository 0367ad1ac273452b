use vstd::prelude::*;

verus! {

// The matching engine. A stored fingerprint row is (hash key, song
// identifier, anchor timestamp in precision units); the query side is
// a pair of parallel vectors of hash keys and anchor timestamps.

/// Largest query or stored-row count the engine accepts; keeps every
/// vote total far from the integer limits.
pub const MAX_MATCH_INPUT: usize = 1000000;

/// Largest timestamp, in precision units, the engine accepts; keeps
/// offsets within the signed 64-bit range.
pub const MAX_TIME_UNITS: u64 = 0x4000_0000_0000_0000;

/// Tunable parameters of the matching stage. They must be identical
/// between the enrollment and recognition runs of one deployment.
pub struct MatchConfig {
    /// Width of one offset bin, in precision units.
    pub offset_bin_size: i64,
    /// Smallest best-bin vote that keeps a song in the running.
    pub min_match_threshold: u64,
    /// Smallest confidence, in hundredths of a percent, that keeps a
    /// song in the running.
    pub min_confidence_x100: u64,
    /// Largest number of candidates kept in a ranked report.
    pub max_results: usize,
}

impl MatchConfig {
    /// The configuration is usable by the engine.
    pub open spec fn valid(self) -> bool {
        &&& self.offset_bin_size >= 1
        &&& self.min_match_threshold >= 1
        &&& self.max_results >= 1
    }
}

impl Default for MatchConfig {
    /// Offsets grouped to 5 precision units, at least 2 weighted votes,
    /// at least 1.00% confidence, at most 7 ranked results.
    fn default() -> (c: Self)
        ensures
            c.offset_bin_size == 5,
            c.min_match_threshold == 2,
            c.min_confidence_x100 == 100,
            c.max_results == 7,
            c.valid(),
    {
        MatchConfig {
            offset_bin_size: 5,
            min_match_threshold: 2,
            min_confidence_x100: 100,
            max_results: 7,
        }
    }
}

/// One candidate song's fingerprints, in storage order.
pub struct Song {
    pub id: u64,
    pub hashes: Vec<u64>,
    pub anchor_times: Vec<u64>,
}

/// Ghost image of one song group: (identifier, hashes, timestamps).
pub open spec fn song_view(s: Song) -> (u64, Seq<u64>, Seq<u64>) {
    (s.id, s.hashes@, s.anchor_times@)
}

/// Ghost image of a list of song groups.
pub open spec fn groups_view(s: Seq<Song>) -> Seq<(u64, Seq<u64>, Seq<u64>)> {
    s.map(|i: int, x: Song| song_view(x))
}

/// Rows grouped by song identifier: a row joins the last group when its
/// identifier matches, else it starts a new group. Rows arrive sorted
/// by song then time, so each song forms one group.
pub open spec fn spec_groups(rows: Seq<(u64, u64, u64)>) -> Seq<(u64, Seq<u64>, Seq<u64>)>
    decreases rows.len(),
{
    if rows.len() == 0 {
        Seq::empty()
    } else {
        let pre = spec_groups(rows.drop_last());
        let r = rows.last();
        if pre.len() > 0 && pre.last().0 == r.1 {
            pre.update(pre.len() - 1, (r.1, pre.last().1.push(r.0), pre.last().2.push(r.2)))
        } else {
            pre.push((r.1, seq![r.0], seq![r.2]))
        }
    }
}

/// Every group is nonempty, has as many timestamps as hashes, is no
/// larger than the row list, and draws its values from the rows.
pub proof fn lemma_groups_shape(rows: Seq<(u64, u64, u64)>)
    ensures
        spec_groups(rows).len() <= rows.len(),
        forall|g: int|
            0 <= g < spec_groups(rows).len() ==> {
                let grp = #[trigger] spec_groups(rows)[g];
                &&& 1 <= grp.1.len() <= rows.len()
                &&& grp.1.len() == grp.2.len()
                &&& forall|p: int|
                    0 <= p < grp.1.len() ==> exists|q: int|
                        0 <= q < rows.len() && #[trigger] grp.1[p] == rows[q].0 && grp.2[p]
                            == rows[q].2 && grp.0 == rows[q].1
            },
    decreases rows.len(),
{
    if rows.len() == 0 {
    } else {
        lemma_groups_shape(rows.drop_last());
        let pre = spec_groups(rows.drop_last());
        let r = rows.last();
        let cur = spec_groups(rows);
        assert forall|g: int| 0 <= g < cur.len() implies {
            let grp = #[trigger] cur[g];
            &&& 1 <= grp.1.len() <= rows.len()
            &&& grp.1.len() == grp.2.len()
            &&& forall|p: int|
                0 <= p < grp.1.len() ==> exists|q: int|
                    0 <= q < rows.len() && #[trigger] grp.1[p] == rows[q].0 && grp.2[p]
                        == rows[q].2 && grp.0 == rows[q].1
        } by {
            let grp = cur[g];
            if pre.len() > 0 && pre.last().0 == r.1 && g == pre.len() - 1 {
                let old_grp = pre[g];
                assert forall|p: int| 0 <= p < grp.1.len() implies exists|q: int|
                    0 <= q < rows.len() && #[trigger] grp.1[p] == rows[q].0 && grp.2[p]
                        == rows[q].2 && grp.0 == rows[q].1 by {
                    if p < old_grp.1.len() {
                        let q = choose|q: int|
                            0 <= q < rows.drop_last().len() && #[trigger] old_grp.1[p]
                                == rows.drop_last()[q].0 && old_grp.2[p] == rows.drop_last()[q].2
                                && old_grp.0 == rows.drop_last()[q].1;
                        assert(grp.1[p] == rows[q].0 && grp.2[p] == rows[q].2 && grp.0
                            == rows[q].1);
                    } else {
                        let q = rows.len() - 1;
                        assert(grp.1[p] == rows[q].0 && grp.2[p] == rows[q].2 && grp.0
                            == rows[q].1);
                    }
                }
            } else if g < pre.len() {
                let old_grp = pre[g];
                assert(grp == old_grp);
                assert forall|p: int| 0 <= p < grp.1.len() implies exists|q: int|
                    0 <= q < rows.len() && #[trigger] grp.1[p] == rows[q].0 && grp.2[p]
                        == rows[q].2 && grp.0 == rows[q].1 by {
                    let q = choose|q: int|
                        0 <= q < rows.drop_last().len() && #[trigger] old_grp.1[p]
                            == rows.drop_last()[q].0 && old_grp.2[p] == rows.drop_last()[q].2
                            && old_grp.0 == rows.drop_last()[q].1;
                    assert(grp.1[p] == rows[q].0 && grp.2[p] == rows[q].2 && grp.0 == rows[q].1);
                }
            } else {
                let q = rows.len() - 1;
                assert(grp.1[0] == rows[q].0 && grp.2[0] == rows[q].2 && grp.0 == rows[q].1);
            }
        }
    }
}

/// The timestamps, in order, of the occurrences of hash `h` in a song's
/// parallel hash/timestamp lists.
pub open spec fn spec_times_for(hashes: Seq<u64>, times: Seq<u64>, h: u64) -> Seq<u64>
    decreases hashes.len(),
{
    if hashes.len() == 0 {
        Seq::empty()
    } else {
        let pre = spec_times_for(hashes.drop_last(), times.drop_last(), h);
        if hashes.last() == h {
            pre.push(times.last())
        } else {
            pre
        }
    }
}

pub proof fn lemma_times_for_len(hashes: Seq<u64>, times: Seq<u64>, h: u64)
    ensures
        spec_times_for(hashes, times, h).len() <= hashes.len(),
    decreases hashes.len(),
{
    if hashes.len() == 0 {
    } else {
        lemma_times_for_len(hashes.drop_last(), times.drop_last(), h);
    }
}

/// A hash absent from the list has no occurrence timestamps.
pub proof fn lemma_times_for_absent(hashes: Seq<u64>, times: Seq<u64>, h: u64)
    requires
        !hashes.contains(h),
    ensures
        spec_times_for(hashes, times, h).len() == 0,
    decreases hashes.len(),
{
    if hashes.len() == 0 {
    } else {
        assert(!hashes.drop_last().contains(h)) by {
            if hashes.drop_last().contains(h) {
                let q = choose|q: int|
                    0 <= q < hashes.drop_last().len() && hashes.drop_last()[q] == h;
                assert(hashes[q] == h);
            }
        }
        lemma_times_for_absent(hashes.drop_last(), times.drop_last(), h);
        assert(hashes.last() != h);
    }
}

/// How many distinct candidate songs contain hash `h`.
pub open spec fn spec_freq(groups: Seq<(u64, Seq<u64>, Seq<u64>)>, h: u64) -> int
    decreases groups.len(),
{
    if groups.len() == 0 {
        0
    } else {
        spec_freq(groups.drop_last(), h) + if groups.last().1.contains(h) {
            1int
        } else {
            0int
        }
    }
}

pub proof fn lemma_freq_nonneg(groups: Seq<(u64, Seq<u64>, Seq<u64>)>, h: u64)
    ensures
        0 <= spec_freq(groups, h),
    decreases groups.len(),
{
    if groups.len() == 0 {
    } else {
        lemma_freq_nonneg(groups.drop_last(), h);
    }
}

/// A hash's vote weight: 100 scaled by the inverse of the number of
/// distinct songs containing it, truncated. Hashes shared by many songs
/// are collision-prone and contribute less.
pub open spec fn spec_weight(freq: int) -> int {
    100int / (if freq <= 0 {
        1int
    } else {
        freq
    })
}

/// Truncating (toward zero) division, as the executable code computes it.
pub open spec fn spec_trunc_div(a: int, b: int) -> int {
    if a >= 0 {
        a / b
    } else {
        -((-a) / b)
    }
}

/// A raw offset snapped to its bin: divided by the bin size (truncating
/// toward zero) and re-multiplied.
pub open spec fn spec_offset_bin(off: int, bin_size: int) -> int {
    spec_trunc_div(off, bin_size) * bin_size
}

/// First-match lookup in an association list of vote bins; an absent
/// bin has zero votes.
pub open spec fn vote_of(votes: Seq<(i64, u64)>, bin: int) -> int
    decreases votes.len(),
{
    if votes.len() == 0 {
        0
    } else if votes[0].0 == bin {
        votes[0].1 as int
    } else {
        vote_of(votes.drop_first(), bin)
    }
}

/// First-match lookup in an association list of hash buckets; an absent
/// hash has an empty bucket.
pub open spec fn bucket_of(m: Seq<(u64, Seq<u64>)>, h: u64) -> Seq<u64>
    decreases m.len(),
{
    if m.len() == 0 {
        Seq::empty()
    } else if m[0].0 == h {
        m[0].1
    } else {
        bucket_of(m.drop_first(), h)
    }
}

/// Ghost image of an association list of hash buckets.
pub open spec fn map_view(m: Seq<(u64, Vec<u64>)>) -> Seq<(u64, Seq<u64>)> {
    m.map(|i: int, e: (u64, Vec<u64>)| (e.0, e.1@))
}

pub proof fn lemma_bucket_of_no_match(m: Seq<(u64, Seq<u64>)>, h: u64)
    requires
        forall|p: int| 0 <= p < m.len() ==> (#[trigger] m[p]).0 != h,
    ensures
        bucket_of(m, h).len() == 0,
    decreases m.len(),
{
    if m.len() == 0 {
    } else {
        assert(forall|p: int|
            0 <= p < m.drop_first().len() ==> (#[trigger] m.drop_first()[p]).0 != h);
        lemma_bucket_of_no_match(m.drop_first(), h);
    }
}

pub proof fn lemma_bucket_of_first_match(m: Seq<(u64, Seq<u64>)>, h: u64, idx: int)
    requires
        0 <= idx < m.len(),
        m[idx].0 == h,
        forall|p: int| 0 <= p < idx ==> (#[trigger] m[p]).0 != h,
    ensures
        bucket_of(m, h) == m[idx].1,
    decreases idx,
{
    if idx == 0 {
    } else {
        assert(m.drop_first()[idx - 1] == m[idx]);
        assert(forall|p: int| 0 <= p < idx - 1 ==> (#[trigger] m.drop_first()[p]).0 != h);
        lemma_bucket_of_first_match(m.drop_first(), h, idx - 1);
    }
}

pub proof fn lemma_vote_of_no_match(votes: Seq<(i64, u64)>, bin: int)
    requires
        forall|p: int| 0 <= p < votes.len() ==> (#[trigger] votes[p]).0 != bin,
    ensures
        vote_of(votes, bin) == 0,
    decreases votes.len(),
{
    if votes.len() == 0 {
    } else {
        assert(forall|p: int|
            0 <= p < votes.drop_first().len() ==> (#[trigger] votes.drop_first()[p]).0 != bin);
        lemma_vote_of_no_match(votes.drop_first(), bin);
    }
}

pub proof fn lemma_vote_of_first_match(votes: Seq<(i64, u64)>, bin: int, idx: int)
    requires
        0 <= idx < votes.len(),
        votes[idx].0 == bin,
        forall|p: int| 0 <= p < idx ==> (#[trigger] votes[p]).0 != bin,
    ensures
        vote_of(votes, bin) == votes[idx].1 as int,
    decreases idx,
{
    if idx == 0 {
    } else {
        assert(votes.drop_first()[idx - 1] == votes[idx]);
        assert(forall|p: int| 0 <= p < idx - 1 ==> (#[trigger] votes.drop_first()[p]).0 != bin);
        lemma_vote_of_first_match(votes.drop_first(), bin, idx - 1);
    }
}

impl Song {
    /// A song group with no fingerprints yet.
    pub fn new(id: u64) -> (s: Self)
        ensures
            s.id == id,
            s.hashes@.len() == 0,
            s.anchor_times@.len() == 0,
    {
        Self { id, hashes: Vec::new(), anchor_times: Vec::new() }
    }

    /// The query side as a song group: the sample being recognized.
    pub fn new_sample(id: u64, keys: &Vec<u64>, values: &Vec<u64>) -> (s: Self)
        ensures
            s.id == id,
            s.hashes@ == keys@,
            s.anchor_times@ == values@,
    {
        let mut hashes: Vec<u64> = Vec::new();
        let mut anchor_times: Vec<u64> = Vec::new();
        let mut p: usize = 0;
        while p < keys.len()
            invariant
                p <= keys@.len(),
                hashes@ == keys@.take(p as int),
            decreases keys@.len() - p,
        {
            hashes.push(keys[p]);
            assert(hashes@ =~= keys@.take(p as int + 1));
            p += 1;
        }
        let mut q: usize = 0;
        while q < values.len()
            invariant
                q <= values@.len(),
                anchor_times@ == values@.take(q as int),
            decreases values@.len() - q,
        {
            anchor_times.push(values[q]);
            assert(anchor_times@ =~= values@.take(q as int + 1));
            q += 1;
        }
        assert(keys@.take(keys@.len() as int) =~= keys@);
        assert(values@.take(values@.len() as int) =~= values@);
        Self { id, hashes, anchor_times }
    }

    /// Appends one (hash, timestamp) fingerprint to the group.
    pub fn add(&mut self, hash: u64, anchor_time: u64) -> (r: ())
        ensures
            final(self).id == old(self).id,
            final(self).hashes@ == old(self).hashes@.push(hash),
            final(self).anchor_times@ == old(self).anchor_times@.push(anchor_time),
    {
        self.hashes.push(hash);
        self.anchor_times.push(anchor_time);
    }

    /// Groups the song's fingerprints by hash: an association list from
    /// each distinct hash to the timestamps of its occurrences, in order.
    pub fn create_hashmap(&self) -> (m: Vec<(u64, Vec<u64>)>)
        requires
            self.hashes@.len() == self.anchor_times@.len(),
        ensures
            forall|h: u64|
                #[trigger] bucket_of(map_view(m@), h) == spec_times_for(
                    self.hashes@,
                    self.anchor_times@,
                    h,
                ),
    {
        let n = self.hashes.len();
        let mut m: Vec<(u64, Vec<u64>)> = Vec::new();
        let mut q: usize = 0;
        while q < n
            invariant
                q <= n,
                n == self.hashes@.len(),
                n == self.anchor_times@.len(),
                forall|p: int, p2: int|
                    0 <= p < p2 < m@.len() ==> (#[trigger] m@[p]).0 != (#[trigger] m@[p2]).0,
                forall|p: int|
                    0 <= p < m@.len() ==> (#[trigger] map_view(m@)[p]).1 == spec_times_for(
                        self.hashes@,
                        self.anchor_times@,
                        m@[p].0,
                    ),
                forall|h: u64|
                    self.hashes@.take(q as int).contains(h) ==> exists|p: int|
                        0 <= p < m@.len() && (#[trigger] m@[p]).0 == h,
            decreases n - q,
        {
            let h = self.hashes[q];
            let ghost m0 = m@;
            let mut found = false;
            let mut idx: usize = 0;
            while idx < m.len() && !found
                invariant
                    idx <= m@.len(),
                    !found ==> forall|p: int| 0 <= p < idx ==> (#[trigger] m@[p]).0 != h,
                    found ==> idx < m@.len() && m@[idx as int].0 == h,
                decreases m@.len() - idx + (if found {
                    0int
                } else {
                    1int
                }),
            {
                if m[idx].0 == h {
                    found = true;
                } else {
                    idx += 1;
                }
            }
            if !found {
                // collect every occurrence of `h`, in order
                let mut bucket: Vec<u64> = Vec::new();
                let mut p: usize = 0;
                while p < n
                    invariant
                        p <= n,
                        n == self.hashes@.len(),
                        n == self.anchor_times@.len(),
                        bucket@ == spec_times_for(
                            self.hashes@.take(p as int),
                            self.anchor_times@.take(p as int),
                            h,
                        ),
                    decreases n - p,
                {
                    proof {
                        let hp = self.hashes@.take(p as int + 1);
                        let tp = self.anchor_times@.take(p as int + 1);
                        assert(hp.drop_last() =~= self.hashes@.take(p as int));
                        assert(tp.drop_last() =~= self.anchor_times@.take(p as int));
                    }
                    if self.hashes[p] == h {
                        bucket.push(self.anchor_times[p]);
                    }
                    p += 1;
                }
                proof {
                    assert(self.hashes@.take(n as int) =~= self.hashes@);
                    assert(self.anchor_times@.take(n as int) =~= self.anchor_times@);
                }
                let ghost mold = m@;
                m.push((h, bucket));
                proof {
                    assert(map_view(m@) =~= map_view(mold).push((h, bucket@)));
                    assert forall|p: int| 0 <= p < m@.len() implies (#[trigger] map_view(m@)[p]).1
                        == spec_times_for(self.hashes@, self.anchor_times@, m@[p].0) by {
                        if p < mold.len() {
                            assert(map_view(mold)[p].1 == spec_times_for(
                                self.hashes@,
                                self.anchor_times@,
                                mold[p].0,
                            ));
                        }
                    }
                }
            }
            proof {
                assert forall|h2: u64| #[trigger]
                    self.hashes@.take(q as int + 1).contains(h2) implies exists|p: int|
                    0 <= p < m@.len() && (#[trigger] m@[p]).0 == h2 by {
                    let w = choose|w: int|
                        0 <= w < q as int + 1 && #[trigger] self.hashes@.take(q as int + 1)[w]
                            == h2;
                    if w < q as int {
                        assert(self.hashes@.take(q as int).contains(h2)) by {
                            assert(self.hashes@.take(q as int)[w] == h2);
                        }
                        let pp = choose|p: int| 0 <= p < m0.len() && (#[trigger] m0[p]).0 == h2;
                        assert((#[trigger] m@[pp]).0 == h2);
                    } else {
                        assert(h2 == h);
                        if found {
                            assert((#[trigger] m@[idx as int]).0 == h);
                        } else {
                            assert((#[trigger] m@[m@.len() - 1]).0 == h);
                        }
                    }
                }
            }
            q += 1;
        }
        proof {
            assert(self.hashes@.take(n as int) =~= self.hashes@);
            assert forall|h: u64| #[trigger] bucket_of(map_view(m@), h) == spec_times_for(
                self.hashes@,
                self.anchor_times@,
                h,
            ) by {
                if exists|p: int| 0 <= p < m@.len() && (#[trigger] m@[p]).0 == h {
                    let pidx = choose|p: int| 0 <= p < m@.len() && (#[trigger] m@[p]).0 == h;
                    // the first match is the only match, keys being distinct
                    lemma_exists_first_match(m@, h, pidx);
                    let first = choose|p: int|
                        0 <= p <= pidx && (#[trigger] m@[p]).0 == h && forall|p2: int|
                            0 <= p2 < p ==> (#[trigger] m@[p2]).0 != h;
                    lemma_bucket_of_first_match(map_view(m@), h, first);
                    assert(map_view(m@)[first].1 == spec_times_for(
                        self.hashes@,
                        self.anchor_times@,
                        m@[first].0,
                    ));
                } else {
                    assert(forall|p: int| 0 <= p < m@.len() ==> (#[trigger] m@[p]).0 != h);
                    assert(forall|p: int|
                        0 <= p < map_view(m@).len() ==> (#[trigger] map_view(m@)[p]).0 != h);
                    lemma_bucket_of_no_match(map_view(m@), h);
                    assert(!self.hashes@.contains(h)) by {
                        if self.hashes@.contains(h) {
                            assert(self.hashes@.take(n as int).contains(h));
                        }
                    }
                    lemma_times_for_absent(self.hashes@, self.anchor_times@, h);
                }
            }
        }
        m
    }
}

/// Among indices at or before `pidx` whose key matches, there is a first
/// one.
proof fn lemma_exists_first_match(m: Seq<(u64, Vec<u64>)>, h: u64, pidx: int)
    requires
        0 <= pidx < m.len(),
        m[pidx].0 == h,
    ensures
        exists|p: int|
            0 <= p <= pidx && (#[trigger] m[p]).0 == h && forall|p2: int|
                0 <= p2 < p ==> (#[trigger] m[p2]).0 != h,
    decreases pidx,
{
    if forall|p2: int| 0 <= p2 < pidx ==> (#[trigger] m[p2]).0 != h {
        assert(m[pidx].0 == h);
    } else {
        let w = choose|p2: int| 0 <= p2 < pidx && (#[trigger] m[p2]).0 == h;
        lemma_exists_first_match(m, h, w);
        let p = choose|p: int|
            0 <= p <= w && (#[trigger] m[p]).0 == h && forall|p2: int|
                0 <= p2 < p ==> (#[trigger] m[p2]).0 != h;
        assert(0 <= p <= pidx && m[p].0 == h);
    }
}

/// Groups stored rows by song identifier with one linear pass: a row
/// joins the last group when its identifier matches, else starts a new
/// group.
pub fn group_matches(matches: &Vec<(u64, u64, u64)>) -> (songs: Vec<Song>)
    ensures
        groups_view(songs@) == spec_groups(matches@),
{
    let mut songs: Vec<Song> = Vec::new();
    let mut i: usize = 0;
    while i < matches.len()
        invariant
            i <= matches@.len(),
            groups_view(songs@) == spec_groups(matches@.take(i as int)),
        decreases matches@.len() - i,
    {
        let row = matches[i];
        let ghost pre = groups_view(songs@);
        proof {
            assert(matches@.take(i as int + 1).drop_last() =~= matches@.take(i as int));
            assert(matches@.take(i as int + 1).last() == matches@[i as int]);
        }
        if songs.len() > 0 && songs[songs.len() - 1].id == row.1 {
            let mut s = songs.pop().unwrap();
            let ghost sold = s;
            proof {
                assert(pre.last() == song_view(sold));
            }
            s.add(row.0, row.2);
            songs.push(s);
            proof {
                assert(groups_view(songs@) =~~= pre.update(
                    pre.len() - 1,
                    (row.1, pre.last().1.push(row.0), pre.last().2.push(row.2)),
                ));
            }
        } else {
            let mut s = Song::new(row.1);
            s.add(row.0, row.2);
            songs.push(s);
            proof {
                assert(seq![row.0] =~= Seq::<u64>::empty().push(row.0));
                assert(seq![row.2] =~= Seq::<u64>::empty().push(row.2));
                assert(groups_view(songs@) =~~= pre.push((row.1, seq![row.0], seq![row.2])));
            }
        }
        i += 1;
    }
    proof {
        assert(matches@.take(matches@.len() as int) =~= matches@);
    }
    songs
}

/// Weighted votes that the first `k` timestamps of one hash bucket cast
/// into offset bin `bin`, for a query fingerprint at timestamp `t`.
pub open spec fn spec_bucket_contrib(
    bucket: Seq<u64>,
    t: u64,
    w: int,
    bsz: int,
    k: int,
    bin: int,
) -> int
    decreases k,
{
    if k <= 0 {
        0
    } else {
        spec_bucket_contrib(bucket, t, w, bsz, k - 1, bin) + if spec_offset_bin(
            bucket[k - 1] - t,
            bsz,
        ) == bin {
            w
        } else {
            0int
        }
    }
}

/// Weighted votes that the first `i` query fingerprints cast into offset
/// bin `bin` for song `g`: each query hash's occurrences in the song
/// vote, weighted by the hash's rarity across all candidate songs.
pub open spec fn spec_bin_votes(
    g: (u64, Seq<u64>, Seq<u64>),
    keys: Seq<u64>,
    vals: Seq<u64>,
    groups: Seq<(u64, Seq<u64>, Seq<u64>)>,
    bsz: int,
    i: int,
    bin: int,
) -> int
    decreases i,
{
    if i <= 0 {
        0
    } else {
        let bucket = spec_times_for(g.1, g.2, keys[i - 1]);
        spec_bin_votes(g, keys, vals, groups, bsz, i - 1, bin) + spec_bucket_contrib(
            bucket,
            vals[i - 1],
            spec_weight(spec_freq(groups, keys[i - 1])),
            bsz,
            bucket.len() as int,
            bin,
        )
    }
}

pub proof fn lemma_bucket_contrib_bounds(bucket: Seq<u64>, t: u64, w: int, bsz: int, k: int, bin: int)
    requires
        0 <= w <= 100,
        0 <= k,
    ensures
        0 <= spec_bucket_contrib(bucket, t, w, bsz, k, bin) <= 100 * k,
    decreases k,
{
    if k <= 0 {
    } else {
        lemma_bucket_contrib_bounds(bucket, t, w, bsz, k - 1, bin);
    }
}

pub proof fn lemma_bin_votes_bounds(
    g: (u64, Seq<u64>, Seq<u64>),
    keys: Seq<u64>,
    vals: Seq<u64>,
    groups: Seq<(u64, Seq<u64>, Seq<u64>)>,
    bsz: int,
    i: int,
    bin: int,
)
    requires
        0 <= i,
    ensures
        0 <= spec_bin_votes(g, keys, vals, groups, bsz, i, bin) <= 100 * i * g.1.len(),
    decreases i,
{
    if i <= 0 {
        assert(100 * 0 * g.1.len() == 0) by (nonlinear_arith);
    } else {
        lemma_bin_votes_bounds(g, keys, vals, groups, bsz, i - 1, bin);
        let bucket = spec_times_for(g.1, g.2, keys[i - 1]);
        lemma_times_for_len(g.1, g.2, keys[i - 1]);
        lemma_freq_nonneg(groups, keys[i - 1]);
        lemma_bucket_contrib_bounds(
            bucket,
            vals[i - 1],
            spec_weight(spec_freq(groups, keys[i - 1])),
            bsz,
            bucket.len() as int,
            bin,
        );
        assert(100 * (i - 1) * g.1.len() + 100 * g.1.len() == 100 * i * g.1.len())
            by (nonlinear_arith);
        assert(100 * (bucket.len() as int) <= 100 * g.1.len());
    }
}

/// Snaps a raw offset to its bin with truncating division.
pub fn offset_bin(off: i64, bin_size: i64) -> (r: i64)
    requires
        bin_size >= 1,
        -(MAX_TIME_UNITS as int) <= off as int <= MAX_TIME_UNITS as int,
    ensures
        r as int == spec_offset_bin(off as int, bin_size as int),
{
    if off >= 0 {
        let q = (off as u64) / (bin_size as u64);
        proof {
            vstd::arithmetic::div_mod::lemma_fundamental_div_mod(off as int, bin_size as int);
            vstd::arithmetic::div_mod::lemma_mod_bound(off as int, bin_size as int);
            assert((q as int) * (bin_size as int) == (bin_size as int) * (q as int))
                by (nonlinear_arith);
            assert((q as int) * (bin_size as int) <= off as int);
            assert((q as int) * (bin_size as int) >= 0) by (nonlinear_arith)
                requires
                    q as int >= 0,
                    bin_size as int >= 1,
            ;
            assert(spec_trunc_div(off as int, bin_size as int) == q as int);
            assert(spec_offset_bin(off as int, bin_size as int) == (q as int) * (
            bin_size as int));
        }
        (q * (bin_size as u64)) as i64
    } else {
        let mag = (-off) as u64;
        let q = mag / (bin_size as u64);
        proof {
            vstd::arithmetic::div_mod::lemma_fundamental_div_mod(mag as int, bin_size as int);
            vstd::arithmetic::div_mod::lemma_mod_bound(mag as int, bin_size as int);
            assert((q as int) * (bin_size as int) == (bin_size as int) * (q as int))
                by (nonlinear_arith);
            assert((q as int) * (bin_size as int) <= mag as int);
            assert((q as int) * (bin_size as int) >= 0) by (nonlinear_arith)
                requires
                    q as int >= 0,
                    bin_size as int >= 1,
            ;
            assert(spec_trunc_div(off as int, bin_size as int) == -(q as int));
            assert((-(q as int)) * (bin_size as int) == -((q as int) * (bin_size as int)))
                by (nonlinear_arith);
            assert(spec_offset_bin(off as int, bin_size as int) == -((q as int) * (
            bin_size as int)));
        }
        -((q * (bin_size as u64)) as i64)
    }
}

/// Appending an entry whose key is new adds its votes to that key's
/// lookup and leaves every other lookup unchanged.
proof fn lemma_vote_of_push_no_match(votes: Seq<(i64, u64)>, e: (i64, u64), b: int)
    requires
        forall|p: int| 0 <= p < votes.len() ==> (#[trigger] votes[p]).0 != e.0,
    ensures
        vote_of(votes.push(e), b) == vote_of(votes, b) + (if e.0 == b {
            e.1 as int
        } else {
            0int
        }),
    decreases votes.len(),
{
    if votes.len() == 0 {
        assert(votes.push(e)[0] == e);
        if e.0 == b {
            assert(vote_of(votes.push(e), b) == e.1 as int);
            assert(vote_of(votes, b) == 0);
        } else {
            assert(votes.push(e).drop_first() =~= Seq::<(i64, u64)>::empty());
            assert(vote_of(votes.push(e), b) == vote_of(votes.push(e).drop_first(), b));
            assert(vote_of(Seq::<(i64, u64)>::empty(), b) == 0);
        }
    } else {
        assert(votes.push(e)[0] == votes[0]);
        if votes[0].0 == b {
            assert((#[trigger] votes[0]).0 != e.0);
            assert(vote_of(votes.push(e), b) == votes[0].1 as int);
            assert(vote_of(votes, b) == votes[0].1 as int);
        } else {
            assert(votes.push(e).drop_first() =~= votes.drop_first().push(e));
            assert(forall|p: int|
                0 <= p < votes.drop_first().len() ==> (#[trigger] votes.drop_first()[p]).0
                    != e.0);
            lemma_vote_of_push_no_match(votes.drop_first(), e, b);
            assert(vote_of(votes, b) == vote_of(votes.drop_first(), b));
            assert(vote_of(votes.push(e), b) == vote_of(votes.drop_first().push(e), b));
        }
    }
}

/// Replacing the entry at `idx` by one with the same key leaves every
/// other bin's lookup unchanged.
proof fn lemma_vote_of_update(votes: Seq<(i64, u64)>, idx: int, e: (i64, u64), b: int)
    requires
        0 <= idx < votes.len(),
        e.0 == votes[idx].0,
        e.0 != b,
    ensures
        vote_of(votes.update(idx, e), b) == vote_of(votes, b),
    decreases idx,
{
    let upd = votes.update(idx, e);
    if idx == 0 {
        assert(upd[0] == e);
        assert(votes[0].0 != b);
        assert(upd.drop_first() =~= votes.drop_first());
    } else {
        assert(upd[0] == votes[0]);
        if votes[0].0 == b {
        } else {
            assert(upd.drop_first() =~= votes.drop_first().update(idx - 1, e));
            lemma_vote_of_update(votes.drop_first(), idx - 1, e, b);
        }
    }
}

/// Adds `w` weighted votes to offset bin `bin` in the vote table.
pub fn add_vote(votes: &mut Vec<(i64, u64)>, bin: i64, w: u64)
    requires
        forall|p: int, p2: int|
            0 <= p < p2 < old(votes)@.len() ==> (#[trigger] old(votes)@[p]).0 != (
            #[trigger] old(votes)@[p2]).0,
        vote_of(old(votes)@, bin as int) + w <= u64::MAX,
    ensures
        forall|p: int, p2: int|
            0 <= p < p2 < final(votes)@.len() ==> (#[trigger] final(votes)@[p]).0 != (
            #[trigger] final(votes)@[p2]).0,
        forall|b: int|
            #[trigger] vote_of(final(votes)@, b) == vote_of(old(votes)@, b) + (if b == bin as int {
                w as int
            } else {
                0int
            }),
{
    let ghost v0 = votes@;
    let mut found = false;
    let mut idx: usize = 0;
    while idx < votes.len() && !found
        invariant
            idx <= votes@.len(),
            votes@ == v0,
            !found ==> forall|p: int| 0 <= p < idx ==> (#[trigger] votes@[p]).0 != bin,
            found ==> idx < votes@.len() && votes@[idx as int].0 == bin,
        decreases votes@.len() - idx + (if found {
            0int
        } else {
            1int
        }),
    {
        if votes[idx].0 == bin {
            found = true;
        } else {
            idx += 1;
        }
    }
    if found {
        proof {
            lemma_vote_of_first_match(v0, bin as int, idx as int);
        }
        let v = votes[idx].1;
        let e = (bin, v + w);
        votes[idx] = e;
        proof {
            assert(votes@ =~= v0.update(idx as int, e));
            assert forall|b: int| #[trigger] vote_of(votes@, b) == vote_of(v0, b) + (if b
                == bin as int {
                w as int
            } else {
                0int
            }) by {
                if b == bin as int {
                    lemma_vote_of_first_match(votes@, bin as int, idx as int);
                } else {
                    lemma_vote_of_update(v0, idx as int, e, b);
                }
            }
        }
    } else {
        proof {
            lemma_vote_of_no_match(v0, bin as int);
        }
        votes.push((bin, w));
        proof {
            assert forall|b: int| #[trigger] vote_of(votes@, b) == vote_of(v0, b) + (if b
                == bin as int {
                w as int
            } else {
                0int
            }) by {
                lemma_vote_of_push_no_match(v0, (bin, w), b);
            }
            assert forall|p: int, p2: int| 0 <= p < p2 < votes@.len() implies (
            #[trigger] votes@[p]).0 != (#[trigger] votes@[p2]).0 by {
                if p2 == votes@.len() - 1 {
                    assert(votes@[p] == v0[p]);
                }
            }
        }
    }
}

/// First-match lookup of a hash bucket in the association map.
pub fn get_bucket<'a>(m: &'a Vec<(u64, Vec<u64>)>, h: u64) -> (r: Option<&'a Vec<u64>>)
    ensures
        match r {
            Some(b) => b@ == bucket_of(map_view(m@), h),
            None => bucket_of(map_view(m@), h).len() == 0,
        },
{
    let mut idx: usize = 0;
    while idx < m.len()
        invariant
            idx <= m@.len(),
            forall|p: int| 0 <= p < idx ==> (#[trigger] m@[p]).0 != h,
        decreases m@.len() - idx,
    {
        if m[idx].0 == h {
            proof {
                lemma_bucket_of_first_match(map_view(m@), h, idx as int);
            }
            return Some(&m[idx].1);
        }
        idx += 1;
    }
    proof {
        assert(forall|p: int| 0 <= p < map_view(m@).len() ==> (#[trigger] map_view(m@)[p]).0 != h);
        lemma_bucket_of_no_match(map_view(m@), h);
    }
    None
}

/// How many of the candidate songs contain hash `h`.
pub fn count_songs_with_hash(songs: &Vec<Song>, h: u64) -> (r: u64)
    requires
        songs@.len() <= MAX_MATCH_INPUT,
    ensures
        r as int == spec_freq(groups_view(songs@), h),
{
    let ghost gv = groups_view(songs@);
    let mut r: u64 = 0;
    let mut s: usize = 0;
    while s < songs.len()
        invariant
            s <= songs@.len(),
            songs@.len() <= MAX_MATCH_INPUT,
            gv == groups_view(songs@),
            gv.len() == songs@.len(),
            r as int == spec_freq(gv.take(s as int), h),
            r <= s,
        decreases songs@.len() - s,
    {
        proof {
            assert(gv.take(s as int + 1).drop_last() =~= gv.take(s as int));
            assert(gv.take(s as int + 1).last() == gv[s as int]);
        }
        let song = &songs[s];
        let mut found = false;
        let mut p: usize = 0;
        while p < song.hashes.len() && !found
            invariant
                p <= song.hashes@.len(),
                !found ==> forall|p2: int| 0 <= p2 < p ==> song.hashes@[p2] != h,
                found ==> song.hashes@.contains(h),
            decreases song.hashes@.len() - p + (if found {
                0int
            } else {
                1int
            }),
        {
            if song.hashes[p] == h {
                found = true;
            } else {
                p += 1;
            }
        }
        proof {
            assert(song_view(songs@[s as int]).1 == song.hashes@);
            if !found {
                assert(!song.hashes@.contains(h)) by {
                    if song.hashes@.contains(h) {
                        let w = choose|w: int|
                            0 <= w < song.hashes@.len() && song.hashes@[w] == h;
                        assert(song.hashes@[w] == h);
                    }
                }
            }
        }
        if found {
            r += 1;
        }
        s += 1;
    }
    proof {
        assert(gv.take(gv.len() as int) =~= gv);
    }
    r
}

/// The value is one of the sequence's entries.
pub open spec fn spec_is_entry_of(times: Seq<u64>, t: u64) -> bool {
    exists|q: int| 0 <= q < times.len() && t == #[trigger] times[q]
}

/// Every occurrence timestamp of a hash is one of the song's timestamps.
pub proof fn lemma_times_for_sub(hashes: Seq<u64>, times: Seq<u64>, h: u64)
    requires
        hashes.len() == times.len(),
    ensures
        forall|p: int|
            0 <= p < spec_times_for(hashes, times, h).len() ==> spec_is_entry_of(
                times,
                #[trigger] spec_times_for(hashes, times, h)[p],
            ),
    decreases hashes.len(),
{
    if hashes.len() == 0 {
    } else {
        lemma_times_for_sub(hashes.drop_last(), times.drop_last(), h);
        let pre = spec_times_for(hashes.drop_last(), times.drop_last(), h);
        assert forall|p: int|
            0 <= p < spec_times_for(hashes, times, h).len() implies spec_is_entry_of(
            times,
            #[trigger] spec_times_for(hashes, times, h)[p],
        ) by {
            if p < pre.len() {
                assert(spec_is_entry_of(times.drop_last(), pre[p]));
                let q = choose|q: int|
                    0 <= q < times.drop_last().len() && pre[p] == #[trigger] times.drop_last()[q];
                assert(spec_times_for(hashes, times, h)[p] == times[q]);
            } else {
                assert(spec_times_for(hashes, times, h)[p] == times[times.len() - 1]);
            }
        }
    }
}

/// Among vote entries at or before `pidx` whose bin matches, there is a
/// first one.
proof fn lemma_votes_exists_first_match(votes: Seq<(i64, u64)>, bin: int, pidx: int)
    requires
        0 <= pidx < votes.len(),
        votes[pidx].0 == bin,
    ensures
        exists|p: int|
            0 <= p <= pidx && (#[trigger] votes[p]).0 == bin && forall|p2: int|
                0 <= p2 < p ==> (#[trigger] votes[p2]).0 != bin,
    decreases pidx,
{
    if forall|p2: int| 0 <= p2 < pidx ==> (#[trigger] votes[p2]).0 != bin {
        assert(votes[pidx].0 == bin);
    } else {
        let w = choose|p2: int| 0 <= p2 < pidx && (#[trigger] votes[p2]).0 == bin;
        lemma_votes_exists_first_match(votes, bin, w);
        let p = choose|p: int|
            0 <= p <= w && (#[trigger] votes[p]).0 == bin && forall|p2: int|
                0 <= p2 < p ==> (#[trigger] votes[p2]).0 != bin;
        assert(0 <= p <= pidx && votes[p].0 == bin);
    }
}

/// The pair (bin, v) is the winning offset bin of song `g`: `v` is the
/// bin's vote total, no bin collects more, and every lower-numbered bin
/// collects strictly less — ties go to the lowest offset bin.
pub open spec fn spec_is_best(
    g: (u64, Seq<u64>, Seq<u64>),
    keys: Seq<u64>,
    vals: Seq<u64>,
    groups: Seq<(u64, Seq<u64>, Seq<u64>)>,
    bsz: int,
    bin: int,
    v: int,
) -> bool {
    &&& spec_bin_votes(g, keys, vals, groups, bsz, keys.len() as int, bin) == v
    &&& forall|b: int|
        #[trigger] spec_bin_votes(g, keys, vals, groups, bsz, keys.len() as int, b) <= v
    &&& forall|b: int|
        b < bin ==> #[trigger] spec_bin_votes(g, keys, vals, groups, bsz, keys.len() as int, b)
            < v
}

/// Some offset bin of song `g` collected at least one vote.
pub open spec fn spec_has_best(
    g: (u64, Seq<u64>, Seq<u64>),
    keys: Seq<u64>,
    vals: Seq<u64>,
    groups: Seq<(u64, Seq<u64>, Seq<u64>)>,
    bsz: int,
) -> bool {
    exists|bin: int, v: int| #[trigger] spec_is_best(g, keys, vals, groups, bsz, bin, v)
}

/// The winning (bin, votes) pair of song `g`; meaningful only under
/// `spec_has_best`, and unique by `lemma_is_best_unique`.
pub open spec fn spec_best(
    g: (u64, Seq<u64>, Seq<u64>),
    keys: Seq<u64>,
    vals: Seq<u64>,
    groups: Seq<(u64, Seq<u64>, Seq<u64>)>,
    bsz: int,
) -> (int, int) {
    choose|bin: int, v: int| #[trigger] spec_is_best(g, keys, vals, groups, bsz, bin, v)
}

pub proof fn lemma_is_best_unique(
    g: (u64, Seq<u64>, Seq<u64>),
    keys: Seq<u64>,
    vals: Seq<u64>,
    groups: Seq<(u64, Seq<u64>, Seq<u64>)>,
    bsz: int,
    b1: int,
    v1: int,
    b2: int,
    v2: int,
)
    requires
        spec_is_best(g, keys, vals, groups, bsz, b1, v1),
        spec_is_best(g, keys, vals, groups, bsz, b2, v2),
    ensures
        b1 == b2,
        v1 == v2,
{
    assert(spec_bin_votes(g, keys, vals, groups, bsz, keys.len() as int, b1) <= v2);
    assert(spec_bin_votes(g, keys, vals, groups, bsz, keys.len() as int, b2) <= v1);
    if b1 < b2 {
        assert(spec_bin_votes(g, keys, vals, groups, bsz, keys.len() as int, b1) < v2);
    }
    if b2 < b1 {
        assert(spec_bin_votes(g, keys, vals, groups, bsz, keys.len() as int, b2) < v1);
    }
}

/// Whether song `g` survives both filters, and with what winning bin,
/// vote total and confidence (in hundredths of a percent): dropped when
/// no bin collected a vote, when the best bin's total is below the
/// match threshold, or when the confidence — the best total over the
/// song's fingerprint count, as a scaled percentage — is below the
/// confidence floor.
pub open spec fn spec_song_result(
    g: (u64, Seq<u64>, Seq<u64>),
    keys: Seq<u64>,
    vals: Seq<u64>,
    groups: Seq<(u64, Seq<u64>, Seq<u64>)>,
    cfg: MatchConfig,
) -> Option<(int, int, int)> {
    let bsz = cfg.offset_bin_size as int;
    if !spec_has_best(g, keys, vals, groups, bsz) {
        None
    } else {
        let bv = spec_best(g, keys, vals, groups, bsz);
        if bv.1 < cfg.min_match_threshold as int {
            None
        } else {
            let conf = bv.1 * 10000 / (g.1.len() as int);
            if conf < cfg.min_confidence_x100 as int {
                None
            } else {
                Some((bv.0, bv.1, conf))
            }
        }
    }
}

/// The surviving candidates of the first `k` songs, in group order:
/// (song identifier, winning bin, winning votes, confidence).
pub open spec fn spec_candidates(
    groups: Seq<(u64, Seq<u64>, Seq<u64>)>,
    keys: Seq<u64>,
    vals: Seq<u64>,
    cfg: MatchConfig,
    k: int,
) -> Seq<(u64, int, int, int)>
    decreases k,
{
    if k <= 0 {
        Seq::empty()
    } else {
        let pre = spec_candidates(groups, keys, vals, cfg, k - 1);
        match spec_song_result(groups[k - 1], keys, vals, groups, cfg) {
            None => pre,
            Some(t) => pre.push((groups[k - 1].0, t.0, t.1, t.2)),
        }
    }
}

/// The highest-confidence candidate among the first `k`, scanning in
/// order and keeping the first maximum: its (confidence, identifier),
/// or the (0, 0) sentinel when there is none.
pub open spec fn spec_top(cands: Seq<(u64, int, int, int)>, k: int) -> (int, int)
    decreases k,
{
    if k <= 0 {
        (0, 0)
    } else {
        let pre = spec_top(cands, k - 1);
        if cands[k - 1].3 > pre.0 {
            (cands[k - 1].3, cands[k - 1].0 as int)
        } else {
            pre
        }
    }
}

/// The configuration used: the given one, or the default.
pub open spec fn spec_config_of(config: Option<MatchConfig>) -> MatchConfig {
    match config {
        Some(c) => c,
        None => MatchConfig {
            offset_bin_size: 5,
            min_match_threshold: 2,
            min_confidence_x100: 100,
            max_results: 7,
        },
    }
}

/// The whole matching outcome over stored rows and a query: the
/// (confidence, song identifier) of the best surviving candidate, or
/// the (0, 0) "no match" sentinel.
pub open spec fn spec_match_song(
    rows: Seq<(u64, u64, u64)>,
    keys: Seq<u64>,
    vals: Seq<u64>,
    cfg: MatchConfig,
) -> (int, int) {
    if rows.len() == 0 {
        (0, 0)
    } else {
        let gs = spec_groups(rows);
        let cs = spec_candidates(gs, keys, vals, cfg, gs.len() as int);
        spec_top(cs, cs.len() as int)
    }
}

/// Ghost image of an evaluation result.
pub open spec fn lift_eval(r: Option<(i64, u64, u64)>) -> Option<(int, int, int)> {
    match r {
        None => None,
        Some(t) => Some((t.0 as int, t.1 as int, t.2 as int)),
    }
}

/// Ghost image of a candidate list.
pub open spec fn cands_view(c: Seq<(u64, i64, u64, u64)>) -> Seq<(u64, int, int, int)> {
    c.map(|i: int, e: (u64, i64, u64, u64)| (e.0, e.1 as int, e.2 as int, e.3 as int))
}

/// Scores one candidate song against the query: accumulates, per offset
/// bin, the rarity-weighted votes of every query fingerprint matching a
/// song fingerprint by hash, picks the winning bin (ties to the lowest
/// bin), and applies the match-threshold and confidence filters.
/// Returns the winning (bin, votes, confidence) or `None`.
#[verifier::loop_isolation(false)]
pub fn eval_song(
    song: &Song,
    songs: &Vec<Song>,
    keys: &Vec<u64>,
    values: &Vec<u64>,
    cfg: &MatchConfig,
) -> (r: Option<(i64, u64, u64)>)
    requires
        cfg.valid(),
        keys@.len() == values@.len(),
        keys@.len() <= MAX_MATCH_INPUT,
        songs@.len() <= MAX_MATCH_INPUT,
        song.hashes@.len() == song.anchor_times@.len(),
        1 <= song.hashes@.len() <= MAX_MATCH_INPUT,
        forall|p: int| 0 <= p < values@.len() ==> #[trigger] values@[p] <= MAX_TIME_UNITS,
        forall|p: int|
            0 <= p < song.anchor_times@.len() ==> #[trigger] song.anchor_times@[p]
                <= MAX_TIME_UNITS,
    ensures
        lift_eval(r) == spec_song_result(
            song_view(*song),
            keys@,
            values@,
            groups_view(songs@),
            *cfg,
        ),
{
    let ghost g = song_view(*song);
    let ghost gv = groups_view(songs@);
    let ghost bsz = cfg.offset_bin_size as int;
    let ghost n = keys@.len() as int;
    let map = song.create_hashmap();
    let mut votes: Vec<(i64, u64)> = Vec::new();
    let mut i: usize = 0;
    while i < keys.len()
        invariant
            i <= keys@.len(),
            forall|p: int, p2: int|
                0 <= p < p2 < votes@.len() ==> (#[trigger] votes@[p]).0 != (
                #[trigger] votes@[p2]).0,
            forall|b: int|
                #[trigger] vote_of(votes@, b) == spec_bin_votes(
                    g,
                    keys@,
                    values@,
                    gv,
                    bsz,
                    i as int,
                    b,
                ),
        decreases keys@.len() - i,
    {
        let hq = keys[i];
        let tq = values[i];
        let f = count_songs_with_hash(songs, hq);
        let fm: u64 = if f == 0 {
            1
        } else {
            f
        };
        let w: u64 = 100 / fm;
        let ghost wg = spec_weight(spec_freq(gv, hq));
        proof {
            lemma_freq_nonneg(gv, hq);
            assert(w as int == wg);
            assert(0 <= wg <= 100);
        }
        let ghost bucket_s = spec_times_for(g.1, g.2, hq);
        proof {
            lemma_times_for_len(g.1, g.2, hq);
            lemma_times_for_sub(g.1, g.2, hq);
        }
        match get_bucket(&map, hq) {
            Some(bucket) => {
                assert(bucket@ == bucket_s);
                let mut k: usize = 0;
                while k < bucket.len()
                    invariant
                        k <= bucket@.len(),
                        bucket@ == bucket_s,
                        i < keys@.len(),
                        forall|p: int, p2: int|
                            0 <= p < p2 < votes@.len() ==> (#[trigger] votes@[p]).0 != (
                            #[trigger] votes@[p2]).0,
                        forall|b: int|
                            #[trigger] vote_of(votes@, b) == spec_bin_votes(
                                g,
                                keys@,
                                values@,
                                gv,
                                bsz,
                                i as int,
                                b,
                            ) + spec_bucket_contrib(
                                bucket_s,
                                tq,
                                wg,
                                bsz,
                                k as int,
                                b,
                            ),
                    decreases bucket@.len() - k,
                {
                    let ts = bucket[k];
                    proof {
                        assert(spec_is_entry_of(g.2, bucket_s[k as int]));
                        let q = choose|q: int|
                            0 <= q < g.2.len() && bucket_s[k as int] == #[trigger] g.2[q];
                        assert(ts <= MAX_TIME_UNITS);
                    }
                    let off: i64 = if ts >= tq {
                        (ts - tq) as i64
                    } else {
                        -((tq - ts) as i64)
                    };
                    assert(off as int == ts as int - tq as int);
                    let bn = offset_bin(off, cfg.offset_bin_size);
                    proof {
                        lemma_bin_votes_bounds(g, keys@, values@, gv, bsz, i as int, bn as int);
                        lemma_bucket_contrib_bounds(bucket_s, tq, wg, bsz, k as int, bn as int);
                        assert(100 * (i as int) * g.1.len() <= 100_000_000_000_000)
                            by (nonlinear_arith)
                            requires
                                0 <= i as int <= 1000000,
                                0 <= g.1.len() <= 1000000,
                        ;
                        assert(100 * (k as int) <= 100_000_000);
                        assert(vote_of(votes@, bn as int) + w <= u64::MAX);
                    }
                    add_vote(&mut votes, bn, w);
                    proof {
                        assert forall|b: int| #[trigger] vote_of(votes@, b) == spec_bin_votes(
                            g,
                            keys@,
                            values@,
                            gv,
                            bsz,
                            i as int,
                            b,
                        ) + spec_bucket_contrib(bucket_s, tq, wg, bsz, k as int + 1, b) by {
                            assert(spec_bucket_contrib(bucket_s, tq, wg, bsz, k as int + 1, b)
                                == spec_bucket_contrib(bucket_s, tq, wg, bsz, k as int, b) + (
                            if spec_offset_bin(bucket_s[k as int] - tq, bsz) == b {
                                wg
                            } else {
                                0int
                            }));
                        }
                    }
                    k += 1;
                }
            },
            None => {
                proof {
                    assert(bucket_s.len() == 0);
                }
            },
        }
        proof {
            assert forall|b: int| #[trigger] vote_of(votes@, b) == spec_bin_votes(
                g,
                keys@,
                values@,
                gv,
                bsz,
                i as int + 1,
                b,
            ) by {
                assert(spec_bin_votes(g, keys@, values@, gv, bsz, i as int + 1, b)
                    == spec_bin_votes(g, keys@, values@, gv, bsz, i as int, b)
                    + spec_bucket_contrib(bucket_s, tq, wg, bsz, bucket_s.len() as int, b));
            }
        }
        i += 1;
    }
    // pick the winning bin: highest votes, ties to the lowest bin
    let mut have = false;
    let mut best_bin: i64 = 0;
    let mut best_v: u64 = 0;
    let mut idx: usize = 0;
    while idx < votes.len()
        invariant
            idx <= votes@.len(),
            !have ==> forall|p: int| 0 <= p < idx ==> (#[trigger] votes@[p]).1 == 0,
            have ==> best_v >= 1,
            have ==> exists|p: int| 0 <= p < idx && #[trigger] votes@[p] == (best_bin, best_v),
            have ==> forall|p: int|
                0 <= p < idx ==> ((#[trigger] votes@[p]).1 < best_v || (votes@[p].1 == best_v
                    && best_bin <= votes@[p].0)),
        decreases votes@.len() - idx,
    {
        let e = votes[idx];
        if e.1 >= 1 && (!have || e.1 > best_v || (e.1 == best_v && e.0 < best_bin)) {
            have = true;
            best_bin = e.0;
            best_v = e.1;
            assert(votes@[idx as int] == (best_bin, best_v));
        }
        idx += 1;
    }
    proof {
        if have {
            let p0 = choose|p: int|
                0 <= p < votes@.len() && #[trigger] votes@[p] == (best_bin, best_v);
            assert(forall|p2: int| 0 <= p2 < p0 ==> (#[trigger] votes@[p2]).0 != best_bin);
            lemma_vote_of_first_match(votes@, best_bin as int, p0);
            assert(spec_bin_votes(g, keys@, values@, gv, bsz, n, best_bin as int)
                == best_v as int);
            assert forall|b: int| #[trigger] spec_bin_votes(g, keys@, values@, gv, bsz, n, b)
                <= best_v as int by {
                if exists|p: int| 0 <= p < votes@.len() && (#[trigger] votes@[p]).0 == b {
                    let pm = choose|p: int|
                        0 <= p < votes@.len() && (#[trigger] votes@[p]).0 == b;
                    lemma_votes_exists_first_match(votes@, b, pm);
                    let pf = choose|p: int|
                        0 <= p <= pm && (#[trigger] votes@[p]).0 == b && forall|p2: int|
                            0 <= p2 < p ==> (#[trigger] votes@[p2]).0 != b;
                    lemma_vote_of_first_match(votes@, b, pf);
                } else {
                    lemma_vote_of_no_match(votes@, b);
                }
            }
            assert forall|b: int| b < best_bin as int implies #[trigger] spec_bin_votes(
                g,
                keys@,
                values@,
                gv,
                bsz,
                n,
                b,
            ) < best_v as int by {
                if exists|p: int| 0 <= p < votes@.len() && (#[trigger] votes@[p]).0 == b {
                    let pm = choose|p: int|
                        0 <= p < votes@.len() && (#[trigger] votes@[p]).0 == b;
                    lemma_votes_exists_first_match(votes@, b, pm);
                    let pf = choose|p: int|
                        0 <= p <= pm && (#[trigger] votes@[p]).0 == b && forall|p2: int|
                            0 <= p2 < p ==> (#[trigger] votes@[p2]).0 != b;
                    lemma_vote_of_first_match(votes@, b, pf);
                } else {
                    lemma_vote_of_no_match(votes@, b);
                }
            }
            assert(spec_is_best(g, keys@, values@, gv, bsz, best_bin as int, best_v as int));
            assert(spec_has_best(g, keys@, values@, gv, bsz));
            let bv = spec_best(g, keys@, values@, gv, bsz);
            assert(spec_is_best(g, keys@, values@, gv, bsz, bv.0, bv.1));
            lemma_is_best_unique(
                g,
                keys@,
                values@,
                gv,
                bsz,
                bv.0,
                bv.1,
                best_bin as int,
                best_v as int,
            );
        } else {
            assert forall|b: int| #[trigger] spec_bin_votes(g, keys@, values@, gv, bsz, n, b)
                == 0 by {
                if exists|p: int| 0 <= p < votes@.len() && (#[trigger] votes@[p]).0 == b {
                    let pm = choose|p: int|
                        0 <= p < votes@.len() && (#[trigger] votes@[p]).0 == b;
                    lemma_votes_exists_first_match(votes@, b, pm);
                    let pf = choose|p: int|
                        0 <= p <= pm && (#[trigger] votes@[p]).0 == b && forall|p2: int|
                            0 <= p2 < p ==> (#[trigger] votes@[p2]).0 != b;
                    lemma_vote_of_first_match(votes@, b, pf);
                } else {
                    lemma_vote_of_no_match(votes@, b);
                }
            }
            assert forall|bin: int, v: int| !spec_is_best(
                g,
                keys@,
                values@,
                gv,
                bsz,
                bin,
                v,
            ) by {
                if spec_is_best(g, keys@, values@, gv, bsz, bin, v) {
                    assert(spec_bin_votes(g, keys@, values@, gv, bsz, n, bin) == v);
                    assert(v == 0);
                    assert(spec_bin_votes(g, keys@, values@, gv, bsz, n, bin - 1) < v);
                }
            }
            assert(!spec_has_best(g, keys@, values@, gv, bsz));
        }
    }
    if !have {
        return None;
    }
    if best_v < cfg.min_match_threshold {
        return None;
    }
    proof {
        lemma_bin_votes_bounds(g, keys@, values@, gv, bsz, n, best_bin as int);
        assert(100 * n * g.1.len() <= 100_000_000_000_000) by (nonlinear_arith)
            requires
                0 <= n <= 1000000,
                0 <= g.1.len() <= 1000000,
        ;
    }
    let total = song.hashes.len() as u64;
    let conf = best_v * 10000 / total;
    if conf < cfg.min_confidence_x100 {
        return None;
    }
    Some((best_bin, best_v, conf))
}

/// The matching engine: groups the stored rows by song, weights each
/// query hash by its rarity across candidate songs, accumulates
/// per-(song, offset bin) votes, filters candidates by vote threshold
/// and confidence, and returns the (confidence x 100, song identifier)
/// of the best candidate — or the (0, 0) "no match" sentinel when the
/// row set is empty or every candidate is filtered out. "No match" is a
/// valid outcome, never an error.
#[verifier::loop_isolation(false)]
pub fn match_song(
    matches: Vec<(u64, u64, u64)>,
    keys: &Vec<u64>,
    values: &Vec<u64>,
    config: Option<MatchConfig>,
) -> (r: (u64, u64))
    requires
        keys@.len() == values@.len(),
        keys@.len() <= MAX_MATCH_INPUT,
        matches@.len() <= MAX_MATCH_INPUT,
        forall|p: int| 0 <= p < values@.len() ==> #[trigger] values@[p] <= MAX_TIME_UNITS,
        forall|p: int| 0 <= p < matches@.len() ==> (#[trigger] matches@[p]).2 <= MAX_TIME_UNITS,
        config matches Some(c) ==> c.valid(),
    ensures
        r.0 as int == spec_match_song(matches@, keys@, values@, spec_config_of(config)).0,
        r.1 as int == spec_match_song(matches@, keys@, values@, spec_config_of(config)).1,
        matches@.len() == 0 ==> r == (0u64, 0u64),
{
    let cfg = match config {
        Some(c) => c,
        None => MatchConfig::default(),
    };
    let ghost cfgs = spec_config_of(config);
    proof {
        assert(cfg == cfgs);
    }
    if matches.len() == 0 {
        return (0, 0);
    }
    let songs = group_matches(&matches);
    let ghost gs = spec_groups(matches@);
    proof {
        lemma_groups_shape(matches@);
    }
    let mut cands: Vec<(u64, i64, u64, u64)> = Vec::new();
    let mut s: usize = 0;
    while s < songs.len()
        invariant
            s <= songs@.len(),
            cands_view(cands@) == spec_candidates(gs, keys@, values@, cfgs, s as int),
        decreases songs@.len() - s,
    {
        proof {
            assert(gs[s as int] == song_view(songs@[s as int]));
            assert forall|p: int|
                0 <= p < songs@[s as int].anchor_times@.len() implies #[trigger] songs@[s as int].anchor_times@[p]
                <= MAX_TIME_UNITS by {
                let grp = gs[s as int];
                let q = choose|q: int|
                    0 <= q < matches@.len() && #[trigger] grp.1[p] == matches@[q].0 && grp.2[p]
                        == matches@[q].2 && grp.0 == matches@[q].1;
                assert(grp.2[p] == matches@[q].2);
            }
        }
        let r = eval_song(&songs[s], &songs, keys, values, &cfg);
        let ghost cpre = cands_view(cands@);
        match r {
            Some(t) => {
                let id = songs[s].id;
                cands.push((id, t.0, t.1, t.2));
                proof {
                    assert(cands_view(cands@) =~= cpre.push(
                        (id, t.0 as int, t.1 as int, t.2 as int),
                    ));
                }
            },
            None => {},
        }
        s += 1;
    }
    // first maximum by confidence, in candidate order
    let mut best_conf: u64 = 0;
    let mut best_id: u64 = 0;
    let mut p: usize = 0;
    while p < cands.len()
        invariant
            p <= cands@.len(),
            best_conf as int == spec_top(cands_view(cands@), p as int).0,
            best_id as int == spec_top(cands_view(cands@), p as int).1,
        decreases cands@.len() - p,
    {
        let c = cands[p];
        if c.3 > best_conf {
            best_conf = c.3;
            best_id = c.0;
        }
        p += 1;
    }
    (best_conf, best_id)
}

/// A song none of whose hashes occur in the query collects no votes.
proof fn lemma_bin_votes_zero(
    g: (u64, Seq<u64>, Seq<u64>),
    keys: Seq<u64>,
    vals: Seq<u64>,
    groups: Seq<(u64, Seq<u64>, Seq<u64>)>,
    bsz: int,
    i: int,
    bin: int,
)
    requires
        forall|i2: int| 0 <= i2 < keys.len() ==> !g.1.contains(#[trigger] keys[i2]),
        0 <= i <= keys.len(),
    ensures
        spec_bin_votes(g, keys, vals, groups, bsz, i, bin) == 0,
    decreases i,
{
    if i <= 0 {
    } else {
        lemma_bin_votes_zero(g, keys, vals, groups, bsz, i - 1, bin);
        lemma_times_for_absent(g.1, g.2, keys[i - 1]);
    }
}

/// When every song is filtered out, the candidate list is empty.
proof fn lemma_candidates_all_none(
    groups: Seq<(u64, Seq<u64>, Seq<u64>)>,
    keys: Seq<u64>,
    vals: Seq<u64>,
    cfg: MatchConfig,
    k: int,
)
    requires
        forall|gi: int|
            0 <= gi < k ==> spec_song_result(#[trigger] groups[gi], keys, vals, groups, cfg)
                is None,
        k <= groups.len(),
    ensures
        spec_candidates(groups, keys, vals, cfg, k).len() == 0,
    decreases k,
{
    if k <= 0 {
    } else {
        lemma_candidates_all_none(groups, keys, vals, cfg, k - 1);
    }
}

/// Law: a query that shares no hash key with any stored row — such as
/// uniformly random noise fingerprints — always yields the (0, 0)
/// "no match" sentinel, never a spurious match.
pub proof fn lemma_disjoint_hashes_no_match(
    rows: Seq<(u64, u64, u64)>,
    keys: Seq<u64>,
    vals: Seq<u64>,
    cfg: MatchConfig,
)
    requires
        forall|q: int| 0 <= q < rows.len() ==> !keys.contains((#[trigger] rows[q]).0),
    ensures
        spec_match_song(rows, keys, vals, cfg) == (0int, 0int),
{
    if rows.len() == 0 {
    } else {
        let gs = spec_groups(rows);
        let bsz = cfg.offset_bin_size as int;
        lemma_groups_shape(rows);
        assert forall|gi: int| 0 <= gi < gs.len() implies spec_song_result(
            #[trigger] gs[gi],
            keys,
            vals,
            gs,
            cfg,
        ) is None by {
            let g = gs[gi];
            assert forall|i2: int| 0 <= i2 < keys.len() implies !g.1.contains(
                #[trigger] keys[i2],
            ) by {
                if g.1.contains(keys[i2]) {
                    let p = choose|p: int| 0 <= p < g.1.len() && g.1[p] == keys[i2];
                    let q = choose|q: int|
                        0 <= q < rows.len() && #[trigger] g.1[p] == rows[q].0 && g.2[p]
                            == rows[q].2 && g.0 == rows[q].1;
                    assert(keys.contains(rows[q].0)) by {
                        assert(keys[i2] == rows[q].0);
                    }
                }
            }
            assert forall|b: int| #[trigger] spec_bin_votes(
                g,
                keys,
                vals,
                gs,
                bsz,
                keys.len() as int,
                b,
            ) == 0 by {
                lemma_bin_votes_zero(g, keys, vals, gs, bsz, keys.len() as int, b);
            }
            assert forall|bin: int, v: int| !spec_is_best(g, keys, vals, gs, bsz, bin, v) by {
                if spec_is_best(g, keys, vals, gs, bsz, bin, v) {
                    assert(spec_bin_votes(g, keys, vals, gs, bsz, keys.len() as int, bin) == v);
                    assert(spec_bin_votes(g, keys, vals, gs, bsz, keys.len() as int, bin - 1)
                        < v);
                }
            }
            assert(!spec_has_best(g, keys, vals, gs, bsz));
        }
        lemma_candidates_all_none(gs, keys, vals, cfg, gs.len() as int);
    }
}

/// The stored rows of one song holding exactly the query's fingerprints.
pub open spec fn spec_self_rows(keys: Seq<u64>, vals: Seq<u64>, sid: u64) -> Seq<(u64, u64, u64)> {
    Seq::new(keys.len(), |i: int| (keys[i], sid, vals[i]))
}

/// Rows that all carry one song identifier form a single group holding
/// their hashes and timestamps in order.
proof fn lemma_groups_single(keys: Seq<u64>, vals: Seq<u64>, sid: u64, m: int)
    requires
        keys.len() == vals.len(),
        1 <= m <= keys.len(),
    ensures
        spec_groups(spec_self_rows(keys, vals, sid).take(m)).len() == 1,
        spec_groups(spec_self_rows(keys, vals, sid).take(m))[0].0 == sid,
        spec_groups(spec_self_rows(keys, vals, sid).take(m))[0].1 == keys.take(m),
        spec_groups(spec_self_rows(keys, vals, sid).take(m))[0].2 == vals.take(m),
    decreases m,
{
    let rows = spec_self_rows(keys, vals, sid);
    if m == 1 {
        assert(rows.take(1).drop_last() =~= Seq::<(u64, u64, u64)>::empty());
        assert(spec_groups(rows.take(1).drop_last()) =~= Seq::<(u64, Seq<u64>, Seq<u64>)>::empty());
        assert(rows.take(1).last() == (keys[0], sid, vals[0]));
        assert(seq![keys[0]] =~= keys.take(1));
        assert(seq![vals[0]] =~= vals.take(1));
    } else {
        lemma_groups_single(keys, vals, sid, m - 1);
        assert(rows.take(m).drop_last() =~= rows.take(m - 1));
        assert(rows.take(m).last() == (keys[m - 1], sid, vals[m - 1]));
        let pre = spec_groups(rows.take(m - 1));
        assert(pre.last().0 == sid);
        assert(keys.take(m - 1).push(keys[m - 1]) =~= keys.take(m));
        assert(vals.take(m - 1).push(vals[m - 1]) =~= vals.take(m));
        let cur = spec_groups(rows.take(m));
        assert(cur == pre.update(0, (sid, pre.last().1.push(keys[m - 1]), pre.last().2.push(
            vals[m - 1],
        ))));
    }
}

/// With pairwise distinct hashes, a hash's occurrence list is exactly
/// its own timestamp.
proof fn lemma_times_for_distinct(keys: Seq<u64>, vals: Seq<u64>, i: int)
    requires
        keys.len() == vals.len(),
        0 <= i < keys.len(),
        forall|p: int, q: int| 0 <= p < q < keys.len() ==> keys[p] != keys[q],
    ensures
        spec_times_for(keys, vals, keys[i]) =~= seq![vals[i]],
    decreases keys.len(),
{
    if i == keys.len() - 1 {
        assert(!keys.drop_last().contains(keys[i])) by {
            if keys.drop_last().contains(keys[i]) {
                let w = choose|w: int|
                    0 <= w < keys.drop_last().len() && keys.drop_last()[w] == keys[i];
                assert(keys[w] == keys[i]);
            }
        }
        lemma_times_for_absent(keys.drop_last(), vals.drop_last(), keys[i]);
    } else {
        assert(keys.last() != keys[i]);
        assert(keys.drop_last()[i] == keys[i]);
        lemma_times_for_distinct(keys.drop_last(), vals.drop_last(), i);
    }
}

/// Matching a query against its own enrolled fingerprints casts every
/// vote into offset bin zero.
proof fn lemma_self_votes(
    g: (u64, Seq<u64>, Seq<u64>),
    keys: Seq<u64>,
    vals: Seq<u64>,
    groups: Seq<(u64, Seq<u64>, Seq<u64>)>,
    bsz: int,
    i: int,
    bin: int,
)
    requires
        0 <= i <= keys.len(),
        bsz >= 1,
        g.1 == keys,
        g.2 == vals,
        keys.len() == vals.len(),
        forall|p: int, q: int| 0 <= p < q < keys.len() ==> keys[p] != keys[q],
        forall|h: u64| #[trigger] spec_freq(groups, h) <= 1,
    ensures
        spec_bin_votes(g, keys, vals, groups, bsz, i, bin) == (if bin == 0 {
            100 * i
        } else {
            0int
        }),
    decreases i,
{
    if i <= 0 {
    } else {
        lemma_self_votes(g, keys, vals, groups, bsz, i - 1, bin);
        lemma_times_for_distinct(keys, vals, i - 1);
        let bucket = spec_times_for(g.1, g.2, keys[i - 1]);
        assert(bucket =~= seq![vals[i - 1]]);
        lemma_freq_nonneg(groups, keys[i - 1]);
        let w = spec_weight(spec_freq(groups, keys[i - 1]));
        vstd::arithmetic::div_mod::lemma_div_basics(100);
        assert(w == 100);
        vstd::arithmetic::div_mod::lemma_div_basics(bsz);
        assert(spec_trunc_div(0, bsz) == 0);
        assert(spec_offset_bin(0, bsz) == 0);
        assert(spec_bucket_contrib(bucket, vals[i - 1], w, bsz, 0, bin) == 0);
        assert(spec_bucket_contrib(bucket, vals[i - 1], w, bsz, 1, bin) == (if bin == 0 {
            100int
        } else {
            0int
        }));
    }
}

/// Law: the round trip — recognizing a query against stored rows that
/// hold exactly that query's fingerprints, with pairwise distinct hash
/// keys, under one song — returns that song identifier with full
/// confidence (10000.00%), far above any sensible minimum. No noise
/// was added, so every vote lands in offset bin zero.
pub proof fn lemma_round_trip_self_match(keys: Seq<u64>, vals: Seq<u64>, sid: u64, cfg: MatchConfig)
    requires
        cfg.valid(),
        keys.len() == vals.len(),
        1 <= keys.len(),
        forall|p: int, q: int| 0 <= p < q < keys.len() ==> keys[p] != keys[q],
        cfg.min_match_threshold <= 100,
        cfg.min_confidence_x100 <= 1000000,
    ensures
        spec_match_song(spec_self_rows(keys, vals, sid), keys, vals, cfg) == (
            1000000int,
            sid as int,
        ),
{
    let rows = spec_self_rows(keys, vals, sid);
    let n = keys.len() as int;
    let bsz = cfg.offset_bin_size as int;
    lemma_groups_single(keys, vals, sid, n);
    assert(rows.take(n) =~= rows);
    assert(keys.take(n) =~= keys);
    assert(vals.take(n) =~= vals);
    let gs = spec_groups(rows);
    assert(gs.len() == 1);
    let g = gs[0];
    assert(g.1 == keys && g.2 == vals && g.0 == sid);
    // every hash occurs in exactly this one song
    assert forall|h: u64| #[trigger] spec_freq(gs, h) <= 1 by {
        assert(gs.drop_last() =~= Seq::<(u64, Seq<u64>, Seq<u64>)>::empty());
        assert(spec_freq(gs.drop_last(), h) == 0);
    }
    assert forall|b: int| #[trigger] spec_bin_votes(g, keys, vals, gs, bsz, n, b) == (if b == 0 {
        100 * n
    } else {
        0int
    }) by {
        lemma_self_votes(g, keys, vals, gs, bsz, n, b);
    }
    assert(100 * n >= 100) by (nonlinear_arith)
        requires
            n >= 1,
    ;
    assert(spec_is_best(g, keys, vals, gs, bsz, 0, 100 * n));
    assert(spec_has_best(g, keys, vals, gs, bsz));
    let bv = spec_best(g, keys, vals, gs, bsz);
    assert(spec_is_best(g, keys, vals, gs, bsz, bv.0, bv.1));
    lemma_is_best_unique(g, keys, vals, gs, bsz, bv.0, bv.1, 0, 100 * n);
    assert(100 * n * 10000 == 1000000 * n) by (nonlinear_arith);
    vstd::arithmetic::div_mod::lemma_div_multiples_vanish(1000000, n);
    assert(spec_song_result(g, keys, vals, gs, cfg) == Some((0int, 100 * n, 1000000int)));
    let cs = spec_candidates(gs, keys, vals, cfg, 1);
    assert(spec_candidates(gs, keys, vals, cfg, 0) =~= Seq::<(u64, int, int, int)>::empty());
    assert(cs =~= seq![(sid, 0int, 100 * n, 1000000int)]);
    assert(spec_top(cs, 0) == (0int, 0int));
    assert(spec_top(cs, 1) == (1000000int, sid as int));
}

/// Stable descending insertion of one candidate: it lands after every
/// candidate whose confidence is at least its own, so equal
/// confidences keep their candidate order.
pub open spec fn spec_insert_desc(
    s: Seq<(u64, i64, u64, u64)>,
    c: (u64, i64, u64, u64),
) -> Seq<(u64, i64, u64, u64)>
    decreases s.len(),
{
    if s.len() == 0 {
        seq![c]
    } else if s[0].3 >= c.3 {
        seq![s[0]] + spec_insert_desc(s.drop_first(), c)
    } else {
        seq![c] + s
    }
}

/// The first `k` candidates sorted by confidence, highest first, by
/// stable insertion.
pub open spec fn spec_ranked(cands: Seq<(u64, i64, u64, u64)>, k: int) -> Seq<(u64, i64, u64, u64)>
    decreases k,
{
    if k <= 0 {
        Seq::empty()
    } else {
        spec_insert_desc(spec_ranked(cands, k - 1), cands[k - 1])
    }
}

/// The stable insertion point is the first position whose confidence
/// is below the new candidate's.
proof fn lemma_insert_desc_at(s: Seq<(u64, i64, u64, u64)>, c: (u64, i64, u64, u64), idx: int)
    requires
        0 <= idx <= s.len(),
        forall|p: int| 0 <= p < idx ==> (#[trigger] s[p]).3 >= c.3,
        idx < s.len() ==> s[idx].3 < c.3,
    ensures
        spec_insert_desc(s, c) == s.take(idx) + seq![c] + s.skip(idx),
    decreases idx, s.len(),
{
    if idx == 0 {
        if s.len() == 0 {
            assert(spec_insert_desc(s, c) =~= s.take(0) + seq![c] + s.skip(0));
        } else {
            assert(s[0].3 < c.3);
            assert(seq![c] + s =~= s.take(0) + seq![c] + s.skip(0));
        }
    } else {
        assert((#[trigger] s[0]).3 >= c.3);
        assert(forall|p: int|
            0 <= p < idx - 1 ==> (#[trigger] s.drop_first()[p]).3 >= c.3);
        assert(idx - 1 < s.drop_first().len() ==> s.drop_first()[idx - 1].3 < c.3);
        lemma_insert_desc_at(s.drop_first(), c, idx - 1);
        assert(seq![s[0]] + (s.drop_first().take(idx - 1) + seq![c] + s.drop_first().skip(idx - 1))
            =~= s.take(idx) + seq![c] + s.skip(idx));
    }
}

/// Sorts the surviving candidates by confidence, highest first — equal
/// confidences keep their candidate order — and reports at most
/// `max_results` of them.
pub fn rank_matches(cands: &Vec<(u64, i64, u64, u64)>, max_results: usize) -> (r: Vec<
    (u64, i64, u64, u64),
>)
    ensures
        r@ == spec_ranked(cands@, cands@.len() as int).take(
            if cands@.len() <= max_results {
                cands@.len() as int
            } else {
                max_results as int
            },
        ),
{
    let mut sorted: Vec<(u64, i64, u64, u64)> = Vec::new();
    let mut i: usize = 0;
    while i < cands.len()
        invariant
            i <= cands@.len(),
            sorted@.len() == i,
            sorted@ == spec_ranked(cands@, i as int),
        decreases cands@.len() - i,
    {
        let c = cands[i];
        let mut idx: usize = 0;
        while idx < sorted.len() && sorted[idx].3 >= c.3
            invariant
                idx <= sorted@.len(),
                forall|p: int| 0 <= p < idx ==> (#[trigger] sorted@[p]).3 >= c.3,
            decreases sorted@.len() - idx,
        {
            idx += 1;
        }
        proof {
            lemma_insert_desc_at(sorted@, c, idx as int);
        }
        let ghost sprev = sorted@;
        sorted.insert(idx, c);
        proof {
            assert(sorted@ =~= sprev.take(idx as int) + seq![c] + sprev.skip(idx as int));
        }
        i += 1;
    }
    let limit = if sorted.len() <= max_results {
        sorted.len()
    } else {
        max_results
    };
    sorted.truncate(limit);
    proof {
        assert(sorted@ =~= spec_ranked(cands@, cands@.len() as int).take(
            if cands@.len() <= max_results {
                cands@.len() as int
            } else {
                max_results as int
            },
        ));
    }
    sorted
}

} // verus!
