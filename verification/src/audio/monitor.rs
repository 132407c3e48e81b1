//! Listening in on playback: a tap in the stream, and what the display makes
//! of the samples that come through it.
use vstd::prelude::*;
use ringbuf::traits::{Consumer, Producer, Split};
use std::collections::VecDeque;
use crate::float::arith::abs;
use crate::float::close::{
    lemma_plus_close, lemma_small_within, lemma_term, lemma_times_close, lemma_unit, small, unit,
};
use crate::float::order::lemma_zeros;
use crate::float::single::F32;

verus! {

/// Samples that the ring between the two ends of a tap holds.
pub const RING_SIZE: usize = 4096;

/// Samples that are kept for the display.
pub const KEPT: usize = 2048;

/// Samples that the display is computed from.
pub const WINDOW: usize = 1024;

/// The end of a tap that samples go in at: the producer of a `ringbuf` ring of
/// bit patterns.
#[verifier::external_body]
pub struct MonitorProducer {
    inner: ringbuf::HeapProd<u32>,
}

/// The end of a tap that samples come out at: the consumer of the same ring.
#[verifier::external_body]
pub struct MonitorConsumer {
    inner: ringbuf::HeapCons<u32>,
}

/// The bit patterns that have gone into the ring at this end, first one first.
pub uninterp spec fn sent(p: MonitorProducer) -> Seq<u32>;

/// The bit patterns that ever go into the ring at this end, first one first.
pub uninterp spec fn stream_in(p: MonitorProducer) -> Seq<u32>;

/// How many bit patterns the ring holds.
pub uninterp spec fn room(p: MonitorProducer) -> nat;

/// The last try to put a pattern in found the ring full.
pub uninterp spec fn turned_away(p: MonitorProducer) -> bool;

/// The bit patterns that have come out of the ring at this end, first one
/// first.
pub uninterp spec fn taken(c: MonitorConsumer) -> Seq<u32>;

/// The bit patterns that ever go into the ring at the other end, first one
/// first.
pub uninterp spec fn stream_out(c: MonitorConsumer) -> Seq<u32>;

/// The last try to take a pattern out found the ring empty.
pub uninterp spec fn ran_dry(c: MonitorConsumer) -> bool;

/// A new ring and its two ends: `ringbuf`'s `HeapRb::new`, which panics if the
/// capacity is zero, and its `split`. The ring holds exactly as many patterns as
/// its capacity says. Nothing has gone in or come out yet, and what goes in at
/// one end is what can come out at the other.
#[verifier::external_body]
fn open_ring(capacity: usize) -> (r: (MonitorProducer, MonitorConsumer))
    requires
        capacity > 0,
    ensures
        room(r.0) == capacity,
        sent(r.0) == Seq::<u32>::empty(),
        taken(r.1) == Seq::<u32>::empty(),
        stream_in(r.0) == stream_out(r.1),
{
    let (producer, consumer) = ringbuf::HeapRb::<u32>::new(capacity).split();
    (MonitorProducer { inner: producer }, MonitorConsumer { inner: consumer })
}

/// Appends to the ring: `ringbuf`'s `Producer::try_push`, which puts a pattern
/// behind all that have gone in. Where the ring is full it hands the pattern
/// back and the ring stays as it was. A ring that fewer patterns have gone into
/// than it holds is not full. Whether it is full later on rests on how far the
/// other end has come, in another thread, and is left open.
#[verifier::external_body]
fn push_bits(p: &mut MonitorProducer, bits: u32) -> (r: Result<(), u32>)
    ensures
        stream_in(*final(p)) == stream_in(*old(p)),
        room(*final(p)) == room(*old(p)),
        sent(*old(p)).len() < room(*old(p)) ==> r is Ok,
        match r {
            Ok(_) => {
                &&& sent(*final(p)) == sent(*old(p)).push(bits)
                &&& sent(*final(p)).is_prefix_of(stream_in(*final(p)))
            },
            Err(back) => {
                &&& back == bits
                &&& sent(*final(p)) == sent(*old(p))
                &&& turned_away(*final(p))
            },
        },
{
    p.inner.try_push(bits)
}

/// Removes the oldest pattern from the ring: `ringbuf`'s `Consumer::try_pop`.
/// Patterns come out in the order in which they went in; there is none where
/// the ring is empty. Whether it is empty rests on how far the other end has
/// come, in another thread, and is left open.
#[verifier::external_body]
fn pop_bits(c: &mut MonitorConsumer) -> (r: Option<u32>)
    ensures
        stream_out(*final(c)) == stream_out(*old(c)),
        match r {
            Some(bits) => {
                &&& taken(*final(c)) == taken(*old(c)).push(bits)
                &&& taken(*final(c)).is_prefix_of(stream_out(*final(c)))
            },
            None => taken(*final(c)) == taken(*old(c)) && ran_dry(*final(c)),
        },
{
    c.inner.try_pop()
}

/// What has gone in is the beginning of what ever goes in.
pub open spec fn keeps_order_in(p: MonitorProducer) -> bool {
    sent(p).is_prefix_of(stream_in(p))
}

/// What has come out is the beginning of what ever goes in.
pub open spec fn keeps_order_out(c: MonitorConsumer) -> bool {
    taken(c).is_prefix_of(stream_out(c))
}

/// A tap: its two ends, nothing sent or taken.
pub fn open_tap() -> (r: (MonitorProducer, MonitorConsumer))
    ensures
        room(r.0) == RING_SIZE,
        sent(r.0) == Seq::<u32>::empty(),
        taken(r.1) == Seq::<u32>::empty(),
        stream_in(r.0) == stream_out(r.1),
        keeps_order_in(r.0),
        keeps_order_out(r.1),
{
    open_ring(RING_SIZE)
}

/// A tap in a stream of samples.
pub struct SpySource {
    pub producer: MonitorProducer,
}

impl SpySource {
    /// A tap that samples go in at.
    pub fn new(producer: MonitorProducer) -> (r: SpySource)
        ensures
            r.producer == producer,
    {
        SpySource { producer }
    }

    /// Passes the next sample of the stream on unchanged, and sends a copy of
    /// it unless the ring is full. The end of the stream sends nothing.
    pub fn next(&mut self, input: Option<F32>) -> (r: Option<F32>)
        ensures
            r == input,
            match input {
                Some(sample) => {
                    ||| sent(final(self).producer) == sent(old(self).producer).push(
                        sample.to_bits(),
                    )
                    ||| {
                        &&& sent(final(self).producer) == sent(old(self).producer)
                        &&& turned_away(final(self).producer)
                        &&& sent(old(self).producer).len() >= room(old(self).producer)
                    }
                },
                None => *final(self) == *old(self),
            },
            room(final(self).producer) == room(old(self).producer),
            stream_in(final(self).producer) == stream_in(old(self).producer),
            keeps_order_in(old(self).producer) ==> keeps_order_in(final(self).producer),
    {
        match input {
            Some(sample) => {
                let _full: Result<(), u32> = push_bits(&mut self.producer, sample.to_bits());
                Some(sample)
            },
            None => None,
        }
    }
}

/// The samples that bit patterns stand for.
pub open spec fn samples_of(bits: Seq<u32>) -> Seq<F32> {
    bits.map_values(|b: u32| F32::from_bits(b))
}

/// Takes out what is in the ring, oldest first, until it runs dry.
pub fn drain(c: &mut MonitorConsumer) -> (r: Vec<F32>)
    ensures
        exists|bits: Seq<u32>|
            taken(*final(c)) == taken(*old(c)) + bits && r@ == #[trigger] samples_of(bits),
        ran_dry(*final(c)) || r@.len() == usize::MAX,
        stream_out(*final(c)) == stream_out(*old(c)),
        keeps_order_out(*old(c)) ==> keeps_order_out(*final(c)),
{
    let mut out: Vec<F32> = Vec::new();
    let ghost start = taken(*c);
    let ghost mut bits: Seq<u32> = Seq::empty();
    let mut room: usize = usize::MAX;
    let mut open: bool = true;
    assert(start =~= start + bits);
    assert(out@ =~= samples_of(bits));
    while open && room > 0
        invariant
            taken(*c) == start + bits,
            out@ == samples_of(bits),
            open ==> out@.len() + room == usize::MAX,
            !open ==> ran_dry(*c),
            stream_out(*c) == stream_out(*old(c)),
            keeps_order_out(*old(c)) ==> keeps_order_out(*c),
        decreases room,
    {
        match pop_bits(c) {
            Some(b) => {
                out.push(F32::from_bits(b));
                proof {
                    assert(start + bits.push(b) =~= (start + bits).push(b));
                    assert(samples_of(bits.push(b)) =~= samples_of(bits).push(F32::from_bits(b)));
                    bits = bits.push(b);
                }
            },
            None => {
                open = false;
            },
        }
        room = room - 1;
    }
    out
}

/// What comes out of a tap is what went in, in the same order: the patterns
/// that have been taken and those that have been sent agree as far as both go.
pub proof fn lemma_heard_as_played(p: MonitorProducer, c: MonitorConsumer, k: int)
    requires
        stream_in(p) == stream_out(c),
        keeps_order_in(p),
        keeps_order_out(c),
        0 <= k < sent(p).len(),
        k < taken(c).len(),
    ensures
        taken(c)[k] == sent(p)[k],
{
    assert(sent(p)[k] == stream_in(p).subrange(0, sent(p).len() as int)[k]);
    assert(taken(c)[k] == stream_out(c).subrange(0, taken(c).len() as int)[k]);
}

/// The last `n` of a sequence, or all of it.
pub open spec fn tail(s: Seq<F32>, n: int) -> Seq<F32> {
    if s.len() > n {
        s.skip(s.len() - n)
    } else {
        s
    }
}

/// Adds new samples to those that are kept, and keeps the last ones.
pub fn absorb(kept: &mut VecDeque<F32>, fresh: &Vec<F32>)
    ensures
        final(kept)@ == tail(old(kept)@ + fresh@, KEPT as int),
{
    let ghost before = kept@;
    let mut i: usize = 0;
    assert(kept@ =~= before + fresh@.take(0));
    while i < fresh.len()
        invariant
            i <= fresh@.len(),
            kept@ == before + fresh@.take(i as int),
        decreases fresh@.len() - i,
    {
        kept.push_back(fresh[i]);
        assert(kept@ =~= before + fresh@.take(i + 1));
        i = i + 1;
    }
    let ghost all = before + fresh@;
    assert(kept@ =~= all);
    assert(tail(all, KEPT as int) == tail(kept@, KEPT as int));
    while kept.len() > KEPT
        invariant
            tail(all, KEPT as int) == tail(kept@, KEPT as int),
        decreases kept@.len(),
    {
        let ghost longer = kept@;
        let _oldest: Option<F32> = kept.pop_front();
        assert(tail(longer, KEPT as int) =~= tail(kept@, KEPT as int));
    }
}

/// The mix with the last samples of a deck added at a volume.
pub open spec fn with_deck(mix: Seq<F32>, kept: Seq<F32>, volume: F32) -> Seq<F32> {
    let last = tail(kept, WINDOW as int);
    Seq::new(
        mix.len(),
        |i: int|
            if i < last.len() {
                mix[i].plus(last[i].times(volume))
            } else {
                mix[i]
            },
    )
}

/// The samples that are kept of each deck.
pub open spec fn contents(kept: Seq<VecDeque<F32>>) -> Seq<Seq<F32>> {
    kept.map_values(|d: VecDeque<F32>| d@)
}

/// Silence for the display.
pub open spec fn silence() -> Seq<F32> {
    Seq::new(WINDOW as nat, |i: int| F32::zero())
}

/// The last samples of the first `n` decks, added up at their volumes.
pub open spec fn mixed_decks(kept: Seq<Seq<F32>>, volumes: Seq<F32>, n: int) -> Seq<F32>
    decreases n,
{
    if n <= 0 {
        silence()
    } else {
        with_deck(mixed_decks(kept, volumes, n - 1), kept[n - 1], volumes[n - 1])
    }
}

/// Adds the last samples of a deck to the mix.
fn add_deck(mix: &Vec<F32>, kept: &VecDeque<F32>, volume: F32) -> (r: Vec<F32>)
    ensures
        r@ == with_deck(mix@, kept@, volume),
{
    let len: usize = kept.len();
    let start: usize = if len > WINDOW {
        len - WINDOW
    } else {
        0
    };
    let count: usize = len - start;
    let ghost last = tail(kept@, WINDOW as int);
    let mut out: Vec<F32> = Vec::new();
    let mut i: usize = 0;
    while i < mix.len()
        invariant
            i <= mix@.len(),
            len == kept@.len(),
            start <= len,
            count == len - start,
            last == tail(kept@, WINDOW as int),
            start == if len > WINDOW {
                len - WINDOW
            } else {
                0
            },
            out@ == with_deck(mix@, kept@, volume).take(i as int),
        decreases mix@.len() - i,
    {
        if i < count {
            assert(last[i as int] == kept@[start + i]);
            out.push(mix[i].plus(kept[start + i].times(volume)));
        } else {
            out.push(mix[i]);
        }
        assert(with_deck(mix@, kept@, volume).take(i + 1) =~= with_deck(mix@, kept@, volume).take(
            i as int,
        ).push(out@.last()));
        i = i + 1;
    }
    assert(out@ =~= with_deck(mix@, kept@, volume));
    out
}

/// Mixes the last samples of all decks at their volumes.
pub fn mix_decks(kept: &Vec<VecDeque<F32>>, volumes: &Vec<F32>) -> (r: Vec<F32>)
    requires
        kept@.len() == volumes@.len(),
    ensures
        r@ == mixed_decks(contents(kept@), volumes@, kept@.len() as int),
        r@.len() == WINDOW,
{
    let mut mix: Vec<F32> = Vec::new();
    let mut i: usize = 0;
    while i < WINDOW
        invariant
            i <= WINDOW,
            mix@ == silence().take(i as int),
        decreases WINDOW - i,
    {
        mix.push(F32::zero());
        assert(silence().take(i + 1) =~= silence().take(i as int).push(F32::zero()));
        i = i + 1;
    }
    assert(mix@ =~= silence());
    let mut d: usize = 0;
    while d < kept.len()
        invariant
            d <= kept@.len() == volumes@.len(),
            mix@ == mixed_decks(contents(kept@), volumes@, d as int),
            mix@.len() == WINDOW,
        decreases kept@.len() - d,
    {
        mix = add_deck(&mix, &kept[d], volumes[d]);
        d = d + 1;
    }
    mix
}

/// What is shown is the sum of both decks, each at its volume, but for rounding, of the
/// samples that each played last.
pub proof fn lemma_mix_sums_decks(kept: Seq<Seq<F32>>, volumes: Seq<F32>, i: int)
    requires
        kept.len() == 2,
        volumes.len() == 2,
        kept[0].len() >= WINDOW,
        kept[1].len() >= WINDOW,
        0 <= i < WINDOW,
        small(kept[0][kept[0].len() - WINDOW + i], 0x100),
        small(kept[1][kept[1].len() - WINDOW + i], 0x100),
        small(volumes[0], 0x100),
        small(volumes[1], 0x100),
    ensures
        mixed_decks(kept, volumes, 2).len() == WINDOW,
        ({
            let u = unit();
            let p = kept[0][kept[0].len() - WINDOW + i].value() * volumes[0].value();
            let q = kept[1][kept[1].len() - WINDOW + i].value() * volumes[1].value();
            let gap = mixed_decks(kept, volumes, 2)[i].value() * u - (p + q);
            let slack = 16 * (abs(p) + abs(q) + 0x200_0000 * u);
            -slack <= 0x100_0000 * gap <= slack
        }),
{
    let u = unit();
    let a = kept[0][kept[0].len() - WINDOW + i];
    let b = kept[1][kept[1].len() - WINDOW + i];
    let p = a.value() * volumes[0].value();
    let q = b.value() * volumes[1].value();
    lemma_unit();
    lemma_zeros();
    reveal_with_fuel(mixed_decks, 3);
    assert(tail(kept[0], WINDOW as int)[i] == a);
    assert(tail(kept[1], WINDOW as int)[i] == b);
    let x = a.times(volumes[0]);
    let y = b.times(volumes[1]);
    lemma_times_close(a, volumes[0], 0x100, 0x100);
    lemma_times_close(b, volumes[1], 0x100, 0x100);
    lemma_small_within(x, 2 * (0x100int * 0x100) + 1, 0x4_0000);
    lemma_small_within(y, 2 * (0x100int * 0x100) + 1, 0x4_0000);
    let s0 = F32::zero();
    lemma_plus_close(s0, x, 0, 0x4_0000);
    let s1 = s0.plus(x);
    lemma_small_within(s1, 2 * (0int + 0x4_0000) + 1, 0x10_0000);
    lemma_plus_close(s1, y, 0x10_0000, 0x4_0000);
    let s2 = s1.plus(y);
    assert(0 * u == 0 && 0 * (0 + 0x200_0000 * u) == 0);
    lemma_term(0, x.value(), s1.value(), 0, p, 0, 0, u);
    lemma_term(s1.value(), y.value(), s2.value(), p, q, abs(p), 8, u);
    let one = mixed_decks(kept, volumes, 1);
    assert(mixed_decks(kept, volumes, 0) == silence());
    assert(one[i] == s1);
    assert(mixed_decks(kept, volumes, 2)[i] == s2);
}

} // verus!
