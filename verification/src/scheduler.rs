//! Waves of sub-fragments that can run in parallel.
//!
//! A wave is the set of remaining sub-fragments whose dependencies were
//! all completed by earlier waves; the waves run one after the other,
//! with a barrier between them. Within a wave, sub-fragments keep the
//! order in which they were first given.
use crate::rpn::RpnOp;
use vstd::prelude::*;

verus! {

/// A piece of a fragment with the sub-fragments it waits for.
#[derive(Debug, Clone)]
pub struct SubFragment {
    /// Fragment this piece belongs to.
    pub fragment_id: u32,
    /// Id of the piece.
    pub sub_id: u32,
    /// First layer (inclusive).
    pub layer_start: u32,
    /// Last layer (exclusive).
    pub layer_end: u32,
    /// Bytecode of the piece.
    pub ops: Vec<RpnOp>,
    /// Names of the weights the piece reads.
    pub weight_refs: Vec<String>,
    /// Ids of the pieces that must complete first.
    pub depends_on: Vec<u32>,
}

/// Ids of the sub-fragments, in order (with repetitions).
pub open spec fn sub_ids(subs: Seq<SubFragment>) -> Seq<u32> {
    subs.map_values(|s: SubFragment| s.sub_id)
}

/// `s` without repeated values, first occurrences kept in order.
pub open spec fn dedup(s: Seq<u32>) -> Seq<u32>
    decreases s.len(),
{
    if s.len() == 0 {
        Seq::empty()
    } else {
        let d = dedup(s.drop_last());
        if d.contains(s.last()) {
            d
        } else {
            d.push(s.last())
        }
    }
}

/// Distinct ids of the sub-fragments, in order of first appearance.
pub open spec fn distinct_ids(subs: Seq<SubFragment>) -> Seq<u32> {
    dedup(sub_ids(subs))
}

/// Dependencies of id `id`: those of the last sub-fragment with that id
/// (a later sub-fragment with the same id replaces an earlier one).
pub open spec fn deps_of(subs: Seq<SubFragment>, id: u32) -> Seq<u32>
    decreases subs.len(),
{
    if subs.len() == 0 {
        Seq::empty()
    } else if subs.last().sub_id == id {
        subs.last().depends_on@
    } else {
        deps_of(subs.drop_last(), id)
    }
}

/// Every dependency of `id` is in `done`.
pub open spec fn is_ready(subs: Seq<SubFragment>, done: Set<u32>, id: u32) -> bool {
    forall|j: int| 0 <= j < deps_of(subs, id).len() ==> done.contains(#[trigger] deps_of(subs, id)[j])
}

/// The ids of `rem` that are ready, in order.
pub open spec fn ready_part(subs: Seq<SubFragment>, done: Set<u32>, rem: Seq<u32>) -> Seq<u32>
    decreases rem.len(),
{
    if rem.len() == 0 {
        Seq::empty()
    } else if is_ready(subs, done, rem.last()) {
        ready_part(subs, done, rem.drop_last()).push(rem.last())
    } else {
        ready_part(subs, done, rem.drop_last())
    }
}

/// The ids of `rem` that are not ready, in order.
pub open spec fn waiting_part(subs: Seq<SubFragment>, done: Set<u32>, rem: Seq<u32>) -> Seq<u32>
    decreases rem.len(),
{
    if rem.len() == 0 {
        Seq::empty()
    } else if is_ready(subs, done, rem.last()) {
        waiting_part(subs, done, rem.drop_last())
    } else {
        waiting_part(subs, done, rem.drop_last()).push(rem.last())
    }
}

/// The ready and the waiting parts together are as long as what remains.
pub proof fn lemma_parts_len(subs: Seq<SubFragment>, done: Set<u32>, rem: Seq<u32>)
    ensures
        ready_part(subs, done, rem).len() + waiting_part(subs, done, rem).len() == rem.len(),
    decreases rem.len(),
{
    if rem.len() > 0 {
        lemma_parts_len(subs, done, rem.drop_last());
    }
}

proof fn lemma_parts_members(subs: Seq<SubFragment>, done: Set<u32>, rem: Seq<u32>, x: u32)
    ensures
        ready_part(subs, done, rem).contains(x) <==> (rem.contains(x) && is_ready(subs, done, x)),
        waiting_part(subs, done, rem).contains(x) <==> (rem.contains(x) && !is_ready(
            subs,
            done,
            x,
        )),
    decreases rem.len(),
{
    if rem.len() > 0 {
        lemma_parts_members(subs, done, rem.drop_last(), x);
        assert(rem =~= rem.drop_last().push(rem.last()));
        assert forall|y: u32| rem.contains(y) <==> (rem.drop_last().contains(y) || y == rem.last()) by {
            if rem.contains(y) {
                let i = choose|i: int| 0 <= i < rem.len() && rem[i] == y;
                if i < rem.len() - 1 {
                    assert(rem.drop_last()[i] == y);
                }
            }
            if rem.drop_last().contains(y) {
                let i = choose|i: int| 0 <= i < rem.drop_last().len() && rem.drop_last()[i] == y;
                assert(rem[i] == y);
            }
            if y == rem.last() {
                assert(rem[rem.len() - 1] == y);
            }
        }
        let r = ready_part(subs, done, rem.drop_last());
        let w = waiting_part(subs, done, rem.drop_last());
        assert forall|y: u32| r.push(rem.last()).contains(y) <==> (r.contains(y) || y == rem.last()) by {
            if r.push(rem.last()).contains(y) {
                let i = choose|i: int|
                    0 <= i < r.push(rem.last()).len() && r.push(rem.last())[i] == y;
                if i < r.len() {
                    assert(r[i] == y);
                }
            }
            if r.contains(y) {
                let i = choose|i: int| 0 <= i < r.len() && r[i] == y;
                assert(r.push(rem.last())[i] == y);
            }
            if y == rem.last() {
                assert(r.push(rem.last())[r.len() as int] == y);
            }
        }
        assert forall|y: u32| w.push(rem.last()).contains(y) <==> (w.contains(y) || y == rem.last()) by {
            if w.push(rem.last()).contains(y) {
                let i = choose|i: int|
                    0 <= i < w.push(rem.last()).len() && w.push(rem.last())[i] == y;
                if i < w.len() {
                    assert(w[i] == y);
                }
            }
            if w.contains(y) {
                let i = choose|i: int| 0 <= i < w.len() && w[i] == y;
                assert(w.push(rem.last())[i] == y);
            }
            if y == rem.last() {
                assert(w.push(rem.last())[w.len() as int] == y);
            }
        }
    }
}

/// Set of the values of `s`.
pub open spec fn members(s: Seq<u32>) -> Set<u32> {
    Set::new(|x: u32| s.contains(x))
}

/// The waves that scheduling `rem` produces once `done` has completed:
/// each wave is the ready part of what remains. Scheduling stops when
/// nothing remains, or when nothing is ready (a dependency cycle, or a
/// dependency on an unknown id).
pub open spec fn waves_from(subs: Seq<SubFragment>, done: Set<u32>, rem: Seq<u32>) -> Seq<Seq<u32>>
    decreases rem.len(),
{
    let w = ready_part(subs, done, rem);
    if rem.len() == 0 || w.len() == 0 {
        Seq::empty()
    } else {
        proof {
            lemma_parts_len(subs, done, rem);
        }
        seq![w] + waves_from(subs, done + members(w), waiting_part(subs, done, rem))
    }
}

/// The waves of a set of sub-fragments.
pub open spec fn waves_spec(subs: Seq<SubFragment>) -> Seq<Seq<u32>> {
    waves_from(subs, Set::empty(), distinct_ids(subs))
}

/// What remains once scheduling `rem` after `done` stops: empty when every
/// sub-fragment ran, otherwise the ones that can never run.
pub open spec fn leftover(subs: Seq<SubFragment>, done: Set<u32>, rem: Seq<u32>) -> Seq<u32>
    decreases rem.len(),
{
    let w = ready_part(subs, done, rem);
    if rem.len() == 0 || w.len() == 0 {
        rem
    } else {
        proof {
            lemma_parts_len(subs, done, rem);
        }
        leftover(subs, done + members(w), waiting_part(subs, done, rem))
    }
}

/// The sub-fragments that can never run: each waits, directly or not, on
/// itself or on an id that no sub-fragment has.
pub open spec fn stuck(subs: Seq<SubFragment>) -> Seq<u32> {
    leftover(subs, Set::empty(), distinct_ids(subs))
}

/// Every dependency names a sub-fragment and ranks strictly below the
/// sub-fragment that waits for it.
pub open spec fn ranked_by(subs: Seq<SubFragment>, rank: spec_fn(u32) -> nat) -> bool {
    forall|id: u32, j: int|
        #![trigger deps_of(subs, id)[j], sub_ids(subs).contains(id)]
        sub_ids(subs).contains(id) && 0 <= j < deps_of(subs, id).len() ==> sub_ids(subs).contains(
            deps_of(subs, id)[j],
        ) && rank(deps_of(subs, id)[j]) < rank(id)
}

/// Every dependency names a sub-fragment, and some ranking puts every
/// dependency strictly below the sub-fragment that waits for it: the
/// dependencies form no cycle.
pub open spec fn acyclic(subs: Seq<SubFragment>) -> bool {
    exists|rank: spec_fn(u32) -> nat| #[trigger] ranked_by(subs, rank)
}

/// Schedules sub-fragments in waves.
pub struct WaveScheduler {
    sub_fragments: Vec<SubFragment>,
}

impl WaveScheduler {
    /// The sub-fragments to schedule.
    pub closed spec fn subs(&self) -> Seq<SubFragment> {
        self.sub_fragments@
    }

    /// A scheduler for these sub-fragments.
    pub fn new(sub_fragments: Vec<SubFragment>) -> (s: Self)
        ensures
            s.subs() == sub_fragments@,
    {
        WaveScheduler { sub_fragments }
    }

    fn distinct_ids(&self) -> (ids: Vec<u32>)
        ensures
            ids@ == distinct_ids(self.subs()),
    {
        let mut ids: Vec<u32> = Vec::new();
        let mut i: usize = 0;
        while i < self.sub_fragments.len()
            invariant
                i <= self.sub_fragments@.len(),
                ids@ == dedup(sub_ids(self.sub_fragments@).subrange(0, i as int)),
            decreases self.sub_fragments@.len() - i,
        {
            let id = self.sub_fragments[i].sub_id;
            let ghost s = sub_ids(self.sub_fragments@).subrange(0, i + 1);
            assert(s.drop_last() =~= sub_ids(self.sub_fragments@).subrange(0, i as int));
            assert(s.last() == id);
            if !contains(&ids, id) {
                ids.push(id);
            }
            i += 1;
        }
        assert(sub_ids(self.sub_fragments@).subrange(0, i as int) =~= sub_ids(self.sub_fragments@));
        ids
    }

    fn deps(&self, id: u32) -> (d: &Vec<u32>)
        requires
            sub_ids(self.subs()).contains(id),
        ensures
            d@ == deps_of(self.subs(), id),
    {
        let mut i: usize = self.sub_fragments.len();
        let ghost all = self.sub_fragments@;
        assert(all.subrange(0, i as int) =~= all);
        while i > 0
            invariant
                all == self.sub_fragments@,
                i <= all.len(),
                deps_of(all, id) == deps_of(all.subrange(0, i as int), id),
                sub_ids(all.subrange(0, i as int)).contains(id),
            decreases i,
        {
            assert(all.subrange(0, i as int).drop_last() =~= all.subrange(0, i - 1));
            if self.sub_fragments[i - 1].sub_id == id {
                return &self.sub_fragments[i - 1].depends_on;
            }
            proof {
                let s = sub_ids(all.subrange(0, i as int));
                let k = choose|k: int| 0 <= k < s.len() && s[k] == id;
                assert(k != i - 1);
                assert(sub_ids(all.subrange(0, i - 1))[k] == id);
            }
            i -= 1;
        }
        proof {
            let s = sub_ids(all.subrange(0, 0));
            assert(s.len() == 0);
        }
        &self.sub_fragments[0].depends_on
    }

    fn ready(&self, id: u32, done: &Vec<u32>) -> (b: bool)
        requires
            sub_ids(self.subs()).contains(id),
        ensures
            b == is_ready(self.subs(), members(done@), id),
    {
        let d = self.deps(id);
        let mut j: usize = 0;
        while j < d.len()
            invariant
                d@ == deps_of(self.subs(), id),
                j <= d@.len(),
                forall|k: int| 0 <= k < j ==> members(done@).contains(#[trigger] d@[k]),
            decreases d@.len() - j,
        {
            if !contains(done, d[j]) {
                assert(!members(done@).contains(d@[j as int]));
                return false;
            }
            j += 1;
        }
        true
    }

    /// The waves: each holds the remaining sub-fragment ids whose
    /// dependencies all completed in earlier waves, in order of first
    /// appearance. The dependencies must not form a cycle.
    pub fn compute_waves(&self) -> (waves: Vec<Vec<u32>>)
        requires
            acyclic(self.subs()),
        ensures
            wave_views(waves@) == waves_spec(self.subs()),
    {
        match self.try_compute_waves() {
            Ok(waves) => waves,
            Err(_) => Vec::new(),
        }
    }

    /// The waves, or, when scheduling gets stuck, the sub-fragments that
    /// can never run (dependency cycles, or dependencies on unknown ids).
    pub fn try_compute_waves(&self) -> (r: Result<Vec<Vec<u32>>, Vec<u32>>)
        ensures
            match r {
                Ok(waves) => wave_views(waves@) == waves_spec(self.subs()) && stuck(self.subs()).len()
                    == 0,
                Err(rest) => rest@ == stuck(self.subs()) && rest@.len() > 0,
            },
            acyclic(self.subs()) ==> r is Ok,
    {
        let ids = self.distinct_ids();
        let ghost subs = self.subs();
        let mut done: Vec<u32> = Vec::new();
        let mut rem: Vec<u32> = ids;
        let mut waves: Vec<Vec<u32>> = Vec::new();
        proof {
            assert(members(done@) =~= Set::<u32>::empty());
            assert(wave_views(waves@) + waves_from(subs, members(done@), rem@) =~= waves_spec(subs));
            lemma_dedup_members(sub_ids(subs));
        }
        while rem.len() > 0
            invariant
                subs == self.subs(),
                wave_views(waves@) + waves_from(subs, members(done@), rem@) == waves_spec(subs),
                leftover(subs, members(done@), rem@) == stuck(subs),
                forall|x: u32| rem@.contains(x) ==> sub_ids(subs).contains(x),
                forall|x: u32|
                    sub_ids(subs).contains(x) ==> (#[trigger] rem@.contains(x) || members(
                        done@,
                    ).contains(x)),
                forall|x: u32| members(done@).contains(x) ==> !(#[trigger] rem@.contains(x)),
            decreases rem@.len(),
        {
            let mut wave: Vec<u32> = Vec::new();
            let mut rest: Vec<u32> = Vec::new();
            let mut i: usize = 0;
            while i < rem.len()
                invariant
                    subs == self.subs(),
                    i <= rem@.len(),
                    forall|x: u32| rem@.contains(x) ==> sub_ids(subs).contains(x),
                    wave@ == ready_part(subs, members(done@), rem@.subrange(0, i as int)),
                    rest@ == waiting_part(subs, members(done@), rem@.subrange(0, i as int)),
                decreases rem@.len() - i,
            {
                let id = rem[i];
                assert(rem@.subrange(0, i + 1).drop_last() =~= rem@.subrange(0, i as int));
                assert(rem@.contains(id));
                if self.ready(id, &done) {
                    wave.push(id);
                } else {
                    rest.push(id);
                }
                i += 1;
            }
            proof {
                assert(rem@.subrange(0, i as int) =~= rem@);
                lemma_parts_len(subs, members(done@), rem@);
            }
            if wave.len() == 0 {
                proof {
                    if acyclic(subs) {
                        lemma_wave_not_empty(subs, members(done@), rem@);
                    }
                }
                return Err(rem);
            }
            let ghost old_done = done@;
            let ghost old_rem = rem@;
            assert(wave@ == ready_part(subs, members(old_done), old_rem));
            assert(rest@ == waiting_part(subs, members(old_done), old_rem));
            let mut k: usize = 0;
            while k < wave.len()
                invariant
                    k <= wave@.len(),
                    done@ == old_done + wave@.subrange(0, k as int),
                decreases wave@.len() - k,
            {
                done.push(wave[k]);
                assert(wave@.subrange(0, k + 1) =~= wave@.subrange(0, k as int).push(wave@[k as int]));
                k += 1;
            }
            proof {
                assert(wave@.subrange(0, k as int) =~= wave@);
                lemma_members_concat(old_done, wave@);
                assert forall|x: u32| old_rem.contains(x) implies (wave@.contains(x) || rest@.contains(x)) by {
                    lemma_parts_members(subs, members(old_done), old_rem, x);
                }
                assert forall|x: u32| rest@.contains(x) implies old_rem.contains(x) && !wave@.contains(x) by {
                    lemma_parts_members(subs, members(old_done), old_rem, x);
                }
                assert forall|x: u32| wave@.contains(x) implies old_rem.contains(x) by {
                    lemma_parts_members(subs, members(old_done), old_rem, x);
                }
                let ws = wave_views(waves@);
                assert(waves_from(subs, members(old_done), old_rem) == seq![wave@] + waves_from(
                    subs,
                    members(old_done) + members(wave@),
                    rest@,
                ));
            }
            let ghost before = waves@;
            let ghost wave_v = wave@;
            let ghost rest_v = rest@;
            waves.push(wave);
            rem = rest;
            proof {
                assert forall|x: u32|
                    sub_ids(subs).contains(x) implies (#[trigger] rem@.contains(x) || members(
                        done@,
                    ).contains(x)) by {
                    if !rem@.contains(x) && old_rem.contains(x) {
                        assert(wave_v.contains(x));
                        assert(members(done@).contains(x));
                    }
                    if !old_rem.contains(x) {
                        assert(members(old_done).contains(x));
                        assert(members(done@).contains(x));
                    }
                }
                assert forall|x: u32| members(done@).contains(x) implies !(#[trigger] rem@.contains(x)) by {
                    if rem@.contains(x) {
                        assert(rest_v.contains(x));
                        lemma_parts_members(subs, members(old_done), old_rem, x);
                        assert(old_rem.contains(x) && !wave_v.contains(x));
                        if members(old_done).contains(x) {
                            assert(!old_rem.contains(x));
                        } else {
                            assert(members(wave_v).contains(x));
                        }
                    }
                }
                assert(wave_views(waves@) =~= wave_views(before).push(waves@.last()@));
                assert(wave_views(waves@) + waves_from(subs, members(done@), rem@) =~= wave_views(
                    before,
                ) + (seq![waves@.last()@] + waves_from(subs, members(done@), rem@)));
            }
        }
        proof {
            assert(waves_from(subs, members(done@), rem@) =~= Seq::<Seq<u32>>::empty());
            assert(wave_views(waves@) + Seq::<Seq<u32>>::empty() =~= wave_views(waves@));
        }
        Ok(waves)
    }

    /// Number of waves.
    pub fn num_waves(&self) -> (n: usize)
        requires
            acyclic(self.subs()),
        ensures
            n == waves_spec(self.subs()).len(),
    {
        let waves = self.compute_waves();
        proof {
            assert(wave_views(waves@).len() == waves@.len());
        }
        waves.len()
    }

    /// Size of the largest wave (the most sub-fragments that run at once),
    /// `0` when there is none.
    pub fn max_parallelism(&self) -> (n: usize)
        requires
            acyclic(self.subs()),
        ensures
            forall|k: int| 0 <= k < waves_spec(self.subs()).len() ==> (
            #[trigger] waves_spec(self.subs())[k]).len() <= n,
            n == 0 || exists|k: int|
                0 <= k < waves_spec(self.subs()).len() && (#[trigger] waves_spec(
                    self.subs(),
                )[k]).len() == n,
    {
        let waves = self.compute_waves();
        let ghost ws = wave_views(waves@);
        let mut best: usize = 0;
        let mut k: usize = 0;
        while k < waves.len()
            invariant
                ws == wave_views(waves@),
                ws == waves_spec(self.subs()),
                k <= waves@.len(),
                forall|j: int| 0 <= j < k ==> (#[trigger] ws[j]).len() <= best,
                best == 0 || exists|j: int| 0 <= j < k && (#[trigger] ws[j]).len() == best,
            decreases waves@.len() - k,
        {
            assert(ws[k as int] == waves@[k as int]@);
            if waves[k].len() > best {
                best = waves[k].len();
            }
            k += 1;
        }
        best
    }
}

/// Contents of the waves.
pub open spec fn wave_views(waves: Seq<Vec<u32>>) -> Seq<Seq<u32>> {
    waves.map_values(|w: Vec<u32>| w@)
}

fn contains(v: &Vec<u32>, x: u32) -> (b: bool)
    ensures
        b == v@.contains(x),
        b == members(v@).contains(x),
{
    let mut i: usize = 0;
    while i < v.len()
        invariant
            i <= v@.len(),
            forall|j: int| 0 <= j < i ==> v@[j] != x,
        decreases v@.len() - i,
    {
        if v[i] == x {
            assert(v@[i as int] == x);
            return true;
        }
        i += 1;
    }
    false
}

proof fn lemma_members_concat(a: Seq<u32>, b: Seq<u32>)
    ensures
        members(a + b) == members(a) + members(b),
{
    assert forall|x: u32| members(a + b).contains(x) <==> (members(a).contains(x) || members(
        b,
    ).contains(x)) by {
        if (a + b).contains(x) {
            let i = choose|i: int| 0 <= i < (a + b).len() && (a + b)[i] == x;
            if i < a.len() {
                assert(a[i] == x);
            } else {
                assert(b[i - a.len()] == x);
            }
        }
        if a.contains(x) {
            let i = choose|i: int| 0 <= i < a.len() && a[i] == x;
            assert((a + b)[i] == x);
        }
        if b.contains(x) {
            let i = choose|i: int| 0 <= i < b.len() && b[i] == x;
            assert((a + b)[a.len() + i] == x);
        }
    }
    assert(members(a + b) =~= members(a) + members(b));
}

proof fn lemma_dedup_members(s: Seq<u32>)
    ensures
        forall|x: u32| dedup(s).contains(x) <==> s.contains(x),
    decreases s.len(),
{
    if s.len() > 0 {
        lemma_dedup_members(s.drop_last());
        let d = dedup(s.drop_last());
        assert forall|x: u32| dedup(s).contains(x) <==> s.contains(x) by {
            if s.contains(x) {
                let i = choose|i: int| 0 <= i < s.len() && s[i] == x;
                if i < s.len() - 1 {
                    assert(s.drop_last()[i] == x);
                }
            }
            if s.drop_last().contains(x) {
                let i = choose|i: int| 0 <= i < s.drop_last().len() && s.drop_last()[i] == x;
                assert(s[i] == x);
            }
            if !d.contains(s.last()) {
                if d.push(s.last()).contains(x) {
                    let i = choose|i: int| 0 <= i < d.push(s.last()).len() && d.push(s.last())[i] == x;
                    if i < d.len() {
                        assert(d[i] == x);
                    }
                }
                if d.contains(x) {
                    let i = choose|i: int| 0 <= i < d.len() && d[i] == x;
                    assert(d.push(s.last())[i] == x);
                }
                if x == s.last() {
                    assert(d.push(s.last())[d.len() as int] == x);
                }
            }
            if x == s.last() {
                assert(s[s.len() - 1] == x);
            }
        }
    }
}

/// Some element of a non-empty `rem` has the least rank.
proof fn lemma_min_rank(rem: Seq<u32>, rank: spec_fn(u32) -> nat) -> (m: u32)
    requires
        rem.len() > 0,
    ensures
        rem.contains(m),
        forall|x: u32| rem.contains(x) ==> rank(m) <= rank(x),
    decreases rem.len(),
{
    if rem.len() == 1 {
        assert(rem[0] == rem.last());
        assert forall|x: u32| rem.contains(x) implies rank(rem[0]) <= rank(x) by {
            let i = choose|i: int| 0 <= i < rem.len() && rem[i] == x;
        }
        rem[0]
    } else {
        let m0 = lemma_min_rank(rem.drop_last(), rank);
        let i0 = choose|i: int| 0 <= i < rem.drop_last().len() && rem.drop_last()[i] == m0;
        assert(rem[i0] == m0);
        let l = rem.last();
        assert(rem[rem.len() - 1] == l);
        assert forall|x: u32| rem.contains(x) implies rank(if rank(l) < rank(m0) {
            l
        } else {
            m0
        }) <= rank(x) by {
            let i = choose|i: int| 0 <= i < rem.len() && rem[i] == x;
            if i < rem.len() - 1 {
                assert(rem.drop_last()[i] == x);
                assert(rem.drop_last().contains(x));
                assert(rank(m0) <= rank(x));
            } else {
                assert(x == l);
            }
        }
        if rank(l) < rank(m0) {
            l
        } else {
            m0
        }
    }
}

/// Without a dependency cycle, something that remains is always ready.
proof fn lemma_wave_not_empty(subs: Seq<SubFragment>, done: Set<u32>, rem: Seq<u32>)
    requires
        acyclic(subs),
        rem.len() > 0,
        forall|x: u32| rem.contains(x) ==> sub_ids(subs).contains(x),
        forall|x: u32| sub_ids(subs).contains(x) ==> (#[trigger] rem.contains(x) || done.contains(x)),
    ensures
        ready_part(subs, done, rem).len() > 0,
{
    let rank = choose|rank: spec_fn(u32) -> nat| #[trigger] ranked_by(subs, rank);
    let m = lemma_min_rank(rem, rank);
    assert(sub_ids(subs).contains(m));
    assert forall|j: int| 0 <= j < deps_of(subs, m).len() implies done.contains(
        #[trigger] deps_of(subs, m)[j],
    ) by {
        let d = deps_of(subs, m)[j];
        assert(sub_ids(subs).contains(d) && rank(d) < rank(m));
        if rem.contains(d) {
            assert(rank(m) <= rank(d));
        }
    }
    assert(is_ready(subs, done, m));
    lemma_parts_members(subs, done, rem, m);
    if ready_part(subs, done, rem).len() == 0 {
        assert(!ready_part(subs, done, rem).contains(m));
    }
}

proof fn lemma_waves_within(subs: Seq<SubFragment>, done: Set<u32>, rem: Seq<u32>, k: int, x: u32)
    requires
        0 <= k < waves_from(subs, done, rem).len(),
        waves_from(subs, done, rem)[k].contains(x),
    ensures
        rem.contains(x),
    decreases rem.len(),
{
    let w = ready_part(subs, done, rem);
    let rest = waiting_part(subs, done, rem);
    lemma_parts_len(subs, done, rem);
    lemma_parts_members(subs, done, rem, x);
    if k > 0 {
        assert(waves_from(subs, done, rem)[k] == waves_from(subs, done + members(w), rest)[k - 1]);
        lemma_waves_within(subs, done + members(w), rest, k - 1, x);
    }
}

proof fn lemma_deps_earlier(
    subs: Seq<SubFragment>,
    done: Set<u32>,
    rem: Seq<u32>,
    k: int,
    id: u32,
    j: int,
)
    requires
        0 <= k < waves_from(subs, done, rem).len(),
        waves_from(subs, done, rem)[k].contains(id),
        0 <= j < deps_of(subs, id).len(),
    ensures
        done.contains(deps_of(subs, id)[j]) || exists|k2: int|
            0 <= k2 < k && (#[trigger] waves_from(subs, done, rem)[k2]).contains(
                deps_of(subs, id)[j],
            ),
    decreases rem.len(),
{
    let ws = waves_from(subs, done, rem);
    let w = ready_part(subs, done, rem);
    let rest = waiting_part(subs, done, rem);
    let d = deps_of(subs, id)[j];
    lemma_parts_len(subs, done, rem);
    if k == 0 {
        lemma_parts_members(subs, done, rem, id);
        assert(is_ready(subs, done, id));
    } else {
        let done2 = done + members(w);
        assert(ws[k] == waves_from(subs, done2, rest)[k - 1]);
        lemma_deps_earlier(subs, done2, rest, k - 1, id, j);
        if done2.contains(d) && !done.contains(d) {
            assert(w.contains(d));
            assert(ws[0] == w);
        } else if !done2.contains(d) {
            let k2 = choose|k2: int|
                0 <= k2 < k - 1 && (#[trigger] waves_from(subs, done2, rest)[k2]).contains(d);
            assert(ws[k2 + 1] == waves_from(subs, done2, rest)[k2]);
        }
    }
}

/// Every dependency of a sub-fragment of a wave ran in an earlier wave.
pub proof fn law_dependencies_run_earlier(subs: Seq<SubFragment>, k: int, id: u32, j: int)
    requires
        0 <= k < waves_spec(subs).len(),
        waves_spec(subs)[k].contains(id),
        0 <= j < deps_of(subs, id).len(),
    ensures
        exists|k2: int|
            0 <= k2 < k && (#[trigger] waves_spec(subs)[k2]).contains(deps_of(subs, id)[j]),
{
    lemma_deps_earlier(subs, Set::empty(), distinct_ids(subs), k, id, j);
}

/// A wave holds every sub-fragment still waiting whose dependencies have
/// all run: nothing that could run is held back.
pub proof fn law_waves_are_maximal(subs: Seq<SubFragment>, done: Set<u32>, rem: Seq<u32>, x: u32)
    requires
        waves_from(subs, done, rem).len() > 0,
        rem.contains(x),
        is_ready(subs, done, x),
    ensures
        waves_from(subs, done, rem)[0].contains(x),
{
    lemma_parts_members(subs, done, rem, x);
}

proof fn lemma_waves_cover(subs: Seq<SubFragment>, done: Set<u32>, rem: Seq<u32>, x: u32)
    requires
        acyclic(subs),
        rem.contains(x),
        forall|y: u32| rem.contains(y) ==> sub_ids(subs).contains(y),
        forall|y: u32| sub_ids(subs).contains(y) ==> (#[trigger] rem.contains(y) || done.contains(y)),
        forall|y: u32| done.contains(y) ==> !(#[trigger] rem.contains(y)),
    ensures
        exists|k: int|
            0 <= k < waves_from(subs, done, rem).len() && (#[trigger] waves_from(
                subs,
                done,
                rem,
            )[k]).contains(x),
    decreases rem.len(),
{
    let ws = waves_from(subs, done, rem);
    let w = ready_part(subs, done, rem);
    let rest = waiting_part(subs, done, rem);
    lemma_wave_not_empty(subs, done, rem);
    lemma_parts_len(subs, done, rem);
    lemma_parts_members(subs, done, rem, x);
    if w.contains(x) {
        assert(ws[0] == w);
    } else {
        let done2 = done + members(w);
        assert forall|y: u32| rest.contains(y) implies sub_ids(subs).contains(y) by {
            lemma_parts_members(subs, done, rem, y);
        }
        assert forall|y: u32| sub_ids(subs).contains(y) implies (#[trigger] rest.contains(y)
            || done2.contains(y)) by {
            lemma_parts_members(subs, done, rem, y);
        }
        assert forall|y: u32| done2.contains(y) implies !(#[trigger] rest.contains(y)) by {
            lemma_parts_members(subs, done, rem, y);
        }
        lemma_waves_cover(subs, done2, rest, x);
        let k = choose|k: int|
            0 <= k < waves_from(subs, done2, rest).len() && (#[trigger] waves_from(
                subs,
                done2,
                rest,
            )[k]).contains(x);
        assert(ws[k + 1] == waves_from(subs, done2, rest)[k]);
    }
}

proof fn lemma_waves_disjoint(
    subs: Seq<SubFragment>,
    done: Set<u32>,
    rem: Seq<u32>,
    k1: int,
    k2: int,
    x: u32,
)
    requires
        0 <= k1 < k2 < waves_from(subs, done, rem).len(),
        waves_from(subs, done, rem)[k1].contains(x),
    ensures
        !waves_from(subs, done, rem)[k2].contains(x),
    decreases rem.len(),
{
    let ws = waves_from(subs, done, rem);
    let w = ready_part(subs, done, rem);
    let rest = waiting_part(subs, done, rem);
    let done2 = done + members(w);
    lemma_parts_len(subs, done, rem);
    assert(ws[k2] == waves_from(subs, done2, rest)[k2 - 1]);
    if k1 == 0 {
        if ws[k2].contains(x) {
            lemma_waves_within(subs, done2, rest, k2 - 1, x);
            lemma_parts_members(subs, done, rem, x);
        }
    } else {
        assert(ws[k1] == waves_from(subs, done2, rest)[k1 - 1]);
        lemma_waves_disjoint(subs, done2, rest, k1 - 1, k2 - 1, x);
    }
}

/// Without a dependency cycle, every sub-fragment id runs in exactly one
/// wave, and the waves hold nothing else.
pub proof fn law_every_sub_fragment_runs_once(subs: Seq<SubFragment>, x: u32)
    requires
        acyclic(subs),
    ensures
        sub_ids(subs).contains(x) <==> exists|k: int|
            0 <= k < waves_spec(subs).len() && (#[trigger] waves_spec(subs)[k]).contains(x),
        forall|k1: int, k2: int|
            0 <= k1 < waves_spec(subs).len() && 0 <= k2 < waves_spec(subs).len() && (
            #[trigger] waves_spec(subs)[k1]).contains(x) && (#[trigger] waves_spec(subs)[k2]).contains(
                x,
            ) ==> k1 == k2,
{
    let ids = distinct_ids(subs);
    lemma_dedup_members(sub_ids(subs));
    if sub_ids(subs).contains(x) {
        lemma_waves_cover(subs, Set::empty(), ids, x);
        let k = choose|k: int|
            0 <= k < waves_from(subs, Set::empty(), ids).len() && (#[trigger] waves_from(
                subs,
                Set::empty(),
                ids,
            )[k]).contains(x);
        assert(waves_spec(subs)[k].contains(x));
    }
    if exists|k: int|
        0 <= k < waves_spec(subs).len() && (#[trigger] waves_spec(subs)[k]).contains(x) {
        let k = choose|k: int|
            0 <= k < waves_spec(subs).len() && (#[trigger] waves_spec(subs)[k]).contains(x);
        lemma_waves_within(subs, Set::empty(), ids, k, x);
    }
    assert forall|k1: int, k2: int|
        0 <= k1 < waves_spec(subs).len() && 0 <= k2 < waves_spec(subs).len() && (
        #[trigger] waves_spec(subs)[k1]).contains(x) && (#[trigger] waves_spec(subs)[k2]).contains(
            x,
        ) implies k1 == k2 by {
        if k1 < k2 {
            lemma_waves_disjoint(subs, Set::empty(), ids, k1, k2, x);
        } else if k2 < k1 {
            lemma_waves_disjoint(subs, Set::empty(), ids, k2, k1, x);
        }
    }
}

} // verus!
