use vstd::prelude::*;

verus! {

use rand::Rng;

/// A strategy for accumulating the lines of an input stream: either keep
/// every line, or keep a bounded uniform sample of them.
pub trait LineStore {
    /// Whether the store can take one more line.
    spec fn can_add(&self) -> bool;

    /// What ingesting `line` does to the store that was `pre`.
    spec fn add_post(&self, pre: &Self, line: Seq<char>) -> bool;

    /// Ingest one line of the input stream.
    fn add_line(&mut self, line: String)
        requires
            old(self).can_add(),
        ensures
            final(self).add_post(&old(self), line@),
    ;
}

impl LineStore for Vec<String> {
    /// The unbounded store always accepts another line.
    open spec fn can_add(&self) -> bool {
        true
    }

    /// The contents become the old contents with `line` appended: every
    /// earlier line is kept, in arrival order.
    open spec fn add_post(&self, pre: &Vec<String>, line: Seq<char>) -> bool {
        self.deep_view() == pre.deep_view().push(line)
    }

    /// Keep every line, in arrival order.
    fn add_line(&mut self, line: String) {
        let ghost pre = *self;
        self.push(line);
        proof {
            assert(self.deep_view() =~= pre.deep_view().push(line@));
        }
    }
}

/// rand's handle to the thread-local random generator, opaque to the
/// verifier.
#[verifier::external_type_specification]
#[verifier::external_body]
pub struct ExThreadRng(rand::rngs::ThreadRng);

/// Relies on rand::rng: a fresh handle to the thread-local generator.
#[verifier::external_body]
fn fresh_rng() -> rand::rngs::ThreadRng {
    rand::rng()
}

/// Relies on rand::Rng::random_range: a draw from `0..n`, a nonempty range,
/// is uniform over it, so in particular below `n`.
#[verifier::external_body]
fn random_below(rng: &mut rand::rngs::ThreadRng, n: usize) -> (r: usize)
    requires
        n > 0,
    ensures
        r < n,
{
    rng.random_range(0..n)
}

/// Appending to a sequence keeps every element it already contains.
proof fn lemma_contains_push(s: Seq<Seq<char>>, x: Seq<char>, y: Seq<char>)
    requires
        s.contains(y),
    ensures
        s.push(x).contains(y),
{
    let j = choose|j: int| 0 <= j < s.len() && s[j] == y;
    assert(s.push(x)[j] == y);
}

/// The buffer that reservoir sampling keeps after one more line arrives:
/// `buffer` holds the current sample, `capacity` the sample size, `seen` how
/// many lines arrived before this one, and `r` the random draw from
/// `0..seen + 1` (ignored while the buffer is still filling).
pub open spec fn reservoir_step(
    buffer: Seq<Seq<char>>,
    capacity: int,
    seen: int,
    line: Seq<char>,
    r: int,
) -> Seq<Seq<char>> {
    if seen < capacity {
        buffer.push(line)
    } else if r < capacity {
        buffer.update(r, line)
    } else {
        buffer
    }
}

/// The buffer after a whole stream has been sampled: the fold of
/// `reservoir_step` over the lines and the draws, paired up in arrival
/// order. The buffer is a pure function of the lines and the draws, so two
/// runs fed the same lines and the same draws end with identical buffers.
pub open spec fn reservoir_run(capacity: int, lines: Seq<Seq<char>>, draws: Seq<int>) -> Seq<Seq<char>>
    recommends
        lines.len() == draws.len(),
    decreases lines.len(),
{
    if lines.len() == 0 {
        Seq::empty()
    } else {
        reservoir_step(
            reservoir_run(capacity, lines.drop_last(), draws.drop_last()),
            capacity,
            lines.len() - 1,
            lines.last(),
            draws.last(),
        )
    }
}

/// While no more lines arrive than the capacity, sampling keeps every line:
/// whatever the draws were, the run is the arrived lines themselves, in
/// order.
pub proof fn lemma_reservoir_run_below_capacity(capacity: int, lines: Seq<Seq<char>>, draws: Seq<int>)
    requires
        lines.len() == draws.len(),
        lines.len() <= capacity,
    ensures
        reservoir_run(capacity, lines, draws) == lines,
    decreases lines.len(),
{
    if lines.len() > 0 {
        lemma_reservoir_run_below_capacity(capacity, lines.drop_last(), draws.drop_last());
        assert(reservoir_run(capacity, lines, draws) =~= lines);
    }
}

/// The sample never outgrows the capacity and never undershoots the input:
/// whatever the draws were, a run over `n` lines keeps `min(n, capacity)` of
/// them.
pub proof fn lemma_reservoir_run_len(capacity: int, lines: Seq<Seq<char>>, draws: Seq<int>)
    requires
        lines.len() == draws.len(),
        capacity >= 0,
        forall|i: int| 0 <= i < draws.len() ==> draws[i] >= 0,
    ensures
        reservoir_run(capacity, lines, draws).len() == if lines.len() <= capacity {
            lines.len() as int
        } else {
            capacity
        },
    decreases lines.len(),
{
    if lines.len() > 0 {
        assert forall|i: int| 0 <= i < draws.drop_last().len() implies draws.drop_last()[i] >= 0 by {
            assert(draws.drop_last()[i] == draws[i]);
        }
        lemma_reservoir_run_len(capacity, lines.drop_last(), draws.drop_last());
        assert(draws.last() >= 0);
    }
}

/// Internal state of single-pass reservoir sampling of the input lines:
/// a buffer of at most `resr_size` lines, each line seen so far surviving
/// with equal probability.
pub struct Reservoir {
    lines: Vec<String>,
    resr_size: usize,
    count: usize,
    rng: rand::rngs::ThreadRng,
    history: Ghost<Seq<Seq<char>>>,
    draws: Ghost<Seq<int>>,
}

impl Reservoir {
    /// The sample size the reservoir was created with.
    pub closed spec fn capacity(&self) -> usize {
        self.resr_size
    }

    /// How many lines have been offered so far.
    pub closed spec fn seen(&self) -> usize {
        self.count
    }

    /// Every line ever offered, in arrival order.
    pub closed spec fn history(&self) -> Seq<Seq<char>> {
        self.history@
    }

    /// The views of the currently retained lines.
    pub closed spec fn buffer(&self) -> Seq<Seq<char>> {
        self.lines.deep_view()
    }

    /// Every random draw made or accepted so far, in arrival order.
    pub closed spec fn draws(&self) -> Seq<int> {
        self.draws@
    }

    /// The reservoir invariant: the buffer holds `min(seen, capacity)`
    /// lines, each of them previously offered, and until the capacity is
    /// reached it holds exactly the lines offered, in arrival order.
    pub open spec fn wf(&self) -> bool {
        &&& self.seen() == self.history().len()
        &&& self.buffer().len() == if self.seen() <= self.capacity() {
            self.seen() as int
        } else {
            self.capacity() as int
        }
        &&& self.draws().len() == self.seen()
        &&& forall|i: int| 0 <= i < self.draws().len() ==> 0 <= #[trigger] self.draws()[i] <= i
        &&& forall|i: int| 0 <= i < self.buffer().len() ==> self.history().contains(self.buffer()[i])
        &&& self.seen() <= self.capacity() ==> self.buffer() == self.history()
        &&& self.buffer() == reservoir_run(self.capacity() as int, self.history(), self.draws())
    }

    /// A fresh reservoir of sample size `resr_size` that has seen nothing.
    pub fn new(resr_size: usize) -> (r: Reservoir)
        ensures
            r.wf(),
            r.capacity() == resr_size,
            r.seen() == 0,
            r.history() == Seq::<Seq<char>>::empty(),
    {
        let r = Reservoir {
            lines: Vec::new(),
            resr_size,
            count: 0,
            rng: fresh_rng(),
            history: Ghost(Seq::empty()),
            draws: Ghost(Seq::empty()),
        };
        proof {
            assert(r.buffer() =~= Seq::<Seq<char>>::empty());
        }
        r
    }

    /// Consume the sampler and yield its buffer: `min(seen, capacity)`
    /// lines, each of them previously offered, and exactly the lines
    /// offered, in arrival order, when no more than `capacity` arrived.
    pub fn get_all_lines(self) -> (r: Vec<String>)
        requires
            self.wf(),
        ensures
            r.deep_view() == self.buffer(),
            r.deep_view().len() == if self.seen() <= self.capacity() {
                self.seen() as int
            } else {
                self.capacity() as int
            },
            forall|i: int| 0 <= i < r.deep_view().len() ==> self.history().contains(r.deep_view()[i]),
            self.seen() <= self.capacity() ==> r.deep_view() == self.history(),
            r.deep_view() == reservoir_run(self.capacity() as int, self.history(), self.draws()),
    {
        self.lines
    }

    /// Ingest one line, deciding with the caller-supplied draw `r`: the
    /// whole effect on the buffer is `reservoir_step`, so two runs fed the
    /// same lines and the same draws keep identical buffers.
    pub fn add_line_with(&mut self, line: String, r: usize)
        requires
            old(self).wf(),
            old(self).seen() < usize::MAX,
            r <= old(self).seen(),
        ensures
            final(self).wf(),
            final(self).capacity() == old(self).capacity(),
            final(self).seen() == old(self).seen() + 1,
            final(self).history() == old(self).history().push(line@),
            final(self).draws() == old(self).draws().push(r as int),
            final(self).buffer() == reservoir_step(
                old(self).buffer(),
                old(self).capacity() as int,
                old(self).seen() as int,
                line@,
                r as int,
            ),
    {
        let ghost pre = *self;
        self.count = self.count + 1;
        proof {
            self.history@ = self.history@.push(line@);
            self.draws@ = self.draws@.push(r as int);
        }
        if self.count <= self.resr_size {
            self.lines.push(line);
            proof {
                assert(self.buffer() =~= pre.buffer().push(line@));
                assert(self.seen() <= self.capacity() ==> self.buffer() =~= self.history());
                assert forall|i: int| 0 <= i < self.buffer().len()
                    implies self.history().contains(self.buffer()[i]) by {
                    if i < pre.buffer().len() {
                        lemma_contains_push(pre.history(), line@, pre.buffer()[i]);
                    } else {
                        assert(self.history()[pre.history().len() as int] == line@);
                    }
                }
            }
        } else {
            if r < self.resr_size {
                self.lines[r] = line;
                proof {
                    assert(self.buffer() =~= pre.buffer().update(r as int, line@));
                }
            }
            proof {
                assert forall|i: int| 0 <= i < self.buffer().len()
                    implies self.history().contains(self.buffer()[i]) by {
                    if r < pre.resr_size && i == r {
                        assert(self.history()[pre.history().len() as int] == line@);
                    } else {
                        assert(self.buffer()[i] == pre.buffer()[i]);
                        lemma_contains_push(pre.history(), line@, pre.buffer()[i]);
                    }
                }
            }
        }
        proof {
            assert(self.history().drop_last() =~= pre.history());
            assert(self.draws().drop_last() =~= pre.draws());
            assert forall|i: int| 0 <= i < self.draws().len() implies 0 <= #[trigger] self.draws()[i] <= i by {
                if i < pre.draws().len() {
                    assert(self.draws()[i] == pre.draws()[i]);
                } else {
                    assert(self.draws()[i] == r as int);
                }
            }
            assert(reservoir_run(self.resr_size as int, self.history(), self.draws())
                == reservoir_step(
                    reservoir_run(pre.resr_size as int, pre.history(), pre.draws()),
                    pre.resr_size as int,
                    pre.count as int,
                    line@,
                    r as int,
                ));
        }
    }

    /// Ingest one line, drawing the randomness from the reservoir's own
    /// generator: whatever was drawn, the buffer moves by `reservoir_step`
    /// for some draw in range.
    pub fn add_line_sampled(&mut self, line: String)
        requires
            old(self).wf(),
            old(self).seen() < usize::MAX,
        ensures
            final(self).wf(),
            final(self).capacity() == old(self).capacity(),
            final(self).seen() == old(self).seen() + 1,
            final(self).history() == old(self).history().push(line@),
            exists|r: int|
                0 <= r <= old(self).seen() && final(self).draws() == old(self).draws().push(r)
                    && final(self).buffer() == reservoir_step(
                    old(self).buffer(),
                    old(self).capacity() as int,
                    old(self).seen() as int,
                    line@,
                    r,
                ),
    {
        if self.count < self.resr_size {
            let ghost pre = *self;
            self.add_line_with(line, 0);
            proof {
                assert(0 <= 0 <= pre.seen() && self.draws() == pre.draws().push(0)
                    && self.buffer() == reservoir_step(
                    pre.buffer(),
                    pre.capacity() as int,
                    pre.seen() as int,
                    line@,
                    0,
                ));
            }
        } else {
            let r = random_below(&mut self.rng, self.count + 1);
            let ghost pre = *self;
            self.add_line_with(line, r);
            proof {
                assert(0 <= r as int <= pre.seen() && self.draws() == pre.draws().push(r as int)
                    && self.buffer() == reservoir_step(
                    pre.buffer(),
                    pre.capacity() as int,
                    pre.seen() as int,
                    line@,
                    r as int,
                ));
            }
        }
    }

    /// How many lines have been offered so far.
    pub fn seen_count(&self) -> (n: usize)
        ensures
            n == self.seen(),
    {
        self.count
    }

    /// The sample size the reservoir was created with.
    pub fn sample_size(&self) -> (n: usize)
        ensures
            n == self.capacity(),
    {
        self.resr_size
    }
}

impl LineStore for Reservoir {
    /// The reservoir accepts a line while well formed and not at the
    /// machine limit on its counter.
    open spec fn can_add(&self) -> bool {
        self.wf() && self.seen() < usize::MAX
    }

    /// The reservoir stays well formed, its count and history advance by
    /// the new line, and its buffer moves by `reservoir_step` for some
    /// recorded draw in range.
    open spec fn add_post(&self, pre: &Reservoir, line: Seq<char>) -> bool {
        &&& self.wf()
        &&& self.capacity() == pre.capacity()
        &&& self.seen() == pre.seen() + 1
        &&& self.history() == pre.history().push(line)
        &&& exists|r: int|
            0 <= r <= pre.seen() && self.draws() == pre.draws().push(r)
                && self.buffer() == reservoir_step(
                pre.buffer(),
                pre.capacity() as int,
                pre.seen() as int,
                line,
                r,
            )
    }

    /// Ingest one line with the reservoir's own randomness.
    fn add_line(&mut self, line: String) {
        self.add_line_sampled(line);
    }
}

/// The lines that adjacent-duplicate suppression keeps: the first line, and
/// after it every line that differs from its predecessor.
pub open spec fn dedup_adjacent(s: Seq<Seq<char>>) -> Seq<Seq<char>>
    decreases s.len(),
{
    if s.len() == 0 {
        Seq::empty()
    } else if s.len() == 1 {
        s
    } else if s[s.len() - 1] == s[s.len() - 2] {
        dedup_adjacent(s.drop_last())
    } else {
        dedup_adjacent(s.drop_last()).push(s.last())
    }
}

/// Suppress adjacent duplicates: of each run of equal lines keep the first,
/// so on sorted input every distinct line appears once.
pub fn unique_lines(lines: &Vec<String>) -> (r: Vec<String>)
    ensures
        r.deep_view() == dedup_adjacent(lines.deep_view()),
{
    let ghost t = lines.deep_view();
    let mut out: Vec<String> = Vec::new();
    proof {
        assert(t.take(0) =~= Seq::<Seq<char>>::empty());
        assert(out.deep_view() =~= Seq::<Seq<char>>::empty());
    }
    let mut i: usize = 0;
    while i < lines.len()
        invariant
            i <= t.len(),
            t == lines.deep_view(),
            lines@.len() == t.len(),
            out.deep_view() == dedup_adjacent(t.take(i as int)),
        decreases t.len() - i,
    {
        let ghost out_pre = out.deep_view();
        if i == 0 {
            out.push(lines[0].clone());
            proof {
                assert(out.deep_view() =~= out_pre.push(t[0]));
                assert(t.take(1) =~= Seq::<Seq<char>>::empty().push(t[0]));
                assert(dedup_adjacent(t.take(1)) =~= out_pre.push(t[0]));
            }
        } else if lines[i] == lines[i - 1] {
            proof {
                assert(t.take(i + 1).drop_last() =~= t.take(i as int));
                assert(t.take(i + 1)[i as int] == t.take(i + 1)[i - 1]);
            }
        } else {
            out.push(lines[i].clone());
            proof {
                assert(out.deep_view() =~= out_pre.push(t[i as int]));
                assert(t.take(i + 1).drop_last() =~= t.take(i as int));
                assert(t.take(i + 1)[i as int] != t.take(i + 1)[i - 1]);
                assert(t.take(i + 1).last() == t[i as int]);
            }
        }
        i = i + 1;
    }
    proof {
        assert(t.take(t.len() as int) =~= t);
    }
    out
}

} // verus!
