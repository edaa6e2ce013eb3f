//! The generator seen as a stream of `u64` words: a buffer of the unused words of the
//! last block, refilled one block at a time from the core.
use vstd::prelude::*;
use crate::generate::{BLOCK_SIZE, TripleMixSimdCore};
use crate::bytes::{aligned_layout, le_byte, native_is_little_endian, ordered_byte, words_for};
use crate::reproducibility::{ByteLayout, Reproducibility};

verus! {

/// The generator: a core and the unused words of the last block it produced.
#[derive(Debug)]
pub struct TripleMixPrng<R: Reproducibility> {
    pub(crate) core: TripleMixSimdCore<R>,
    pub(crate) results: [u64; BLOCK_SIZE],
    pub(crate) index: usize,
}

impl<R: Reproducibility> TripleMixPrng<R> {
    /// The core state.
    pub closed spec fn core_state(self) -> TripleMixSimdCore<R> {
        self.core
    }

    /// The words of the last block not yet handed out, in order.
    pub closed spec fn buffered(self) -> Seq<u64> {
        if self.index >= BLOCK_SIZE {
            Seq::empty()
        } else {
            self.results@.subrange(self.index as int, BLOCK_SIZE as int)
        }
    }

    /// Word `k` of what the generator will hand out from now on: first the buffered
    /// words, then the blocks of the core's successive steps.
    pub open spec fn word(self, k: nat) -> u64 {
        let b = self.buffered();
        if k < b.len() {
            b[k as int]
        } else {
            let j = (k - b.len()) as nat;
            self.core_state().stepped(j / (BLOCK_SIZE as nat)).output_block()[(j % (
            BLOCK_SIZE as nat)) as int]
        }
    }

    /// The buffer position lies within a block: one to `BLOCK_SIZE` words of the last
    /// block have been used, so fewer than `BLOCK_SIZE` are buffered.
    pub closed spec fn wf(self) -> bool {
        1 <= self.index <= BLOCK_SIZE
    }

    /// Everything `self` hands out from now on, `other` hands out after `n` words.
    pub open spec fn skips(self, other: Self, n: nat) -> bool {
        forall|k: nat| #[trigger] other.word(k) == self.word(k + n)
    }

    /// The core and the buffered words.
    pub open spec fn state(self) -> (TripleMixSimdCore<R>, Seq<u64>) {
        (self.core_state(), self.buffered())
    }

    /// With an empty buffer, one step of the core hands out the next block.
    proof fn lemma_empty_buffer_step(self, next: Self)
        requires
            self.index >= BLOCK_SIZE,
            next.index >= BLOCK_SIZE,
            next.core == self.core.step(),
        ensures
            forall|k: nat| #[trigger] next.word(k) == self.word(k + BLOCK_SIZE as nat),
            forall|k: nat| k < BLOCK_SIZE ==> #[trigger] self.word(k) == self.core.block()[k as int],
    {
        TripleMixSimdCore::<R>::lemma_stepped_is_iterate();
        assert forall|k: nat| #[trigger] next.word(k) == self.word(k + BLOCK_SIZE as nat) by {
            assert(next.buffered().len() == 0);
            assert(self.buffered().len() == 0);
            let q = k / 12;
            vstd::arithmetic::div_mod::lemma_fundamental_div_mod(k as int, 12);
            vstd::arithmetic::div_mod::lemma_mod_bound(k as int, 12);
            vstd::arithmetic::div_mod::lemma_fundamental_div_mod_converse(
                k as int + 12, 12, q as int + 1, k as int % 12);
            self.core.lemma_step_iterate(q);
        }
        assert forall|k: nat| k < BLOCK_SIZE implies #[trigger] self.word(k)
            == self.core.block()[k as int] by {
            assert(self.buffered().len() == 0);
            vstd::arithmetic::div_mod::lemma_fundamental_div_mod_converse(k as int, 12, 0, k as int);
            self.core.lemma_block_len();
            assert(self.core.iterate(0) == self.core);
        }
    }

    /// Hands out the next word, refilling the buffer from the core when it is empty.
    fn next_word(&mut self) -> (r: u64)
        ensures
            final(self).wf(),
            final(self).state() == after_word(old(self).core_state(), old(self).buffered()),
            r == old(self).word(0),
            old(self).skips(*final(self), 1),
    {
        let ghost start = *self;
        proof {
            TripleMixSimdCore::<R>::lemma_stepped_is_iterate();
        }
        if self.index >= BLOCK_SIZE {
            let block = self.core.step_block();
            self.results = block;
            self.index = 0;
            proof {
                let mid = TripleMixPrng { core: start.core.step(), results: start.results, index: BLOCK_SIZE };
                start.lemma_empty_buffer_step(mid);
                assert forall|k: nat| #[trigger] self.word(k) == start.word(k) by {
                    if k < 12 {
                        assert(self.buffered() =~= start.core.block());
                    } else {
                        assert(self.buffered().len() == 12);
                        assert(mid.word((k - 12) as nat) == start.word(k));
                        assert(mid.buffered().len() == 0);
                    }
                }
            }
        }
        let ghost before = *self;
        let v = self.results[self.index];
        self.index = self.index + 1;
        proof {
            assert forall|k: nat| #[trigger] self.word(k) == before.word(k + 1) by {
                assert(self.buffered() =~= before.buffered().drop_first());
            }
            assert(v == before.word(0));
            assert(self.buffered() =~= before.buffered().drop_first());
            if start.index >= BLOCK_SIZE {
                start.core.lemma_block_len();
                assert(before.buffered() =~= start.core.block());
                assert(start.core.iterate(1) == start.core.iterate(0).step());
                assert(start.core.iterate(0) == start.core);
            } else {
                assert(before == start);
            }
        }
        v
    }
}

impl<R: Reproducibility> Clone for TripleMixPrng<R> {
    fn clone(&self) -> (r: Self)
        ensures
            r == *self,
    {
        TripleMixPrng { core: self.core.clone(), results: self.results, index: self.index }
    }
}

impl<R: Reproducibility> TripleMixPrng<R> {
    /// A generator with the given core and an empty buffer.
    pub(crate) fn from_core(core: TripleMixSimdCore<R>) -> (r: Self)
        ensures
            r.wf(),
            r.core_state() == core,
            r.buffered() == Seq::<u64>::empty(),
    {
        TripleMixPrng { core, results: [0; BLOCK_SIZE], index: BLOCK_SIZE }
    }

    /// The generator whose core is the all-but-zero state, with an empty buffer.
    pub fn almost_all_zeroes_state() -> (r: Self)
        ensures
            r.wf(),
            r.core_state() == TripleMixSimdCore::<R>::almost_all_zeroes(),
            r.buffered() == Seq::<u64>::empty(),
    {
        Self::from_core(TripleMixSimdCore::almost_all_zeroes_core())
    }

    /// A copy of the core (for serialization).
    pub fn core_copy(&self) -> (r: TripleMixSimdCore<R>)
        ensures
            r == self.core_state(),
    {
        self.core.clone()
    }

    /// The next `u64`.
    pub fn next_u64(&mut self) -> (r: u64)
        ensures
            final(self).wf(),
            final(self).state() == after_words(old(self).core_state(), old(self).buffered(), 1),
            r == old(self).word(0),
            old(self).skips(*final(self), 1),
    {
        let ghost s0 = *self;
        let r = self.next_word();
        assert(after_words(s0.core_state(), s0.buffered(), 0) == s0.state());
        r
    }

    /// The next `u32`: the high half of the next `u64` xored onto its low half.
    pub fn next_u32(&mut self) -> (r: u32)
        ensures
            final(self).wf(),
            final(self).state() == after_words(old(self).core_state(), old(self).buffered(), 1),
            r == (((old(self).word(0) >> 32u64) ^ old(self).word(0)) as int % 0x1_0000_0000) as u32,
            old(self).skips(*final(self), 1),
    {
        let ghost s0 = *self;
        let next_u64 = self.next_word();
        assert(after_words(s0.core_state(), s0.buffered(), 0) == s0.state());
        let x = (next_u64 >> 32) ^ next_u64;
        assert(x as u32 == (x as int % 0x1_0000_0000) as u32) by (bit_vector);
        #[verifier::truncate]
        (x as u32)
    }

    /// Marks the buffer empty, so that the next word comes from a new block.
    pub fn discard_buffer(&mut self)
        ensures
            final(self).wf(),
            final(self).core_state() == old(self).core_state(),
            final(self).buffered() == Seq::<u64>::empty(),
    {
        self.index = BLOCK_SIZE;
    }

    /// Advances the PRNG by `steps` internal sub-generator steps. Since the
    /// sub-generators are updated once per block of `BLOCK_SIZE` generated `u64` words,
    /// a single step here corresponds to moving past `BLOCK_SIZE` outputs. The
    /// unconsumed buffer of outputs is discarded.
    pub fn advance(&mut self, steps: u128)
        ensures
            final(self).wf(),
            final(self).core_state() == old(self).core_state().advanced(steps as nat),
            final(self).buffered() == Seq::<u64>::empty(),
    {
        self.core.advance(steps);
        self.discard_buffer();
    }

    /// Advances the PRNG by exactly `multiples` x 2<sup>128</sup> sub-generator steps.
    /// This is dramatically faster than ordinary `advance` because the 128-bit LCG
    /// exactly wraps its full state space and thus undergoes zero change for every
    /// 2^128 steps, while the matrices for TinyMT and xoshiro wrap tightly modulo their
    /// periods. The unconsumed buffer of outputs is discarded.
    pub fn advance_2_128(&mut self, multiples: u128)
        ensures
            final(self).wf(),
            final(self).core_state() == old(self).core_state().advanced_2_128(multiples as nat),
            final(self).buffered() == Seq::<u64>::empty(),
    {
        self.core.advance_2_128(multiples);
        self.discard_buffer();
    }

    /// Advances the PRNG by exactly `multiples` x 2<sup>256</sup> sub-generator steps.
    /// The unconsumed buffer of outputs is discarded.
    pub fn advance_2_256(&mut self, multiples: u128)
        ensures
            final(self).wf(),
            final(self).core_state() == old(self).core_state().advanced_2_256(multiples as nat),
            final(self).buffered() == Seq::<u64>::empty(),
    {
        self.core.advance_2_256(multiples);
        self.discard_buffer();
    }

    /// The unused words of the buffer (for serialization).
    pub fn remaining_results(&self) -> (r: Vec<u64>)
        ensures
            r@ == self.buffered(),
    {
        let mut out: Vec<u64> = Vec::new();
        if self.index < BLOCK_SIZE {
            let mut i = self.index;
            while i < BLOCK_SIZE
                invariant
                    self.index <= i <= BLOCK_SIZE,
                    out@ == self.results@.subrange(self.index as int, i as int),
                decreases BLOCK_SIZE - i,
            {
                out.push(self.results[i]);
                i += 1;
                assert(out@ =~= self.results@.subrange(self.index as int, i as int));
            }
        }
        out
    }

    /// Rebuilds a generator from a core and the unused words of its buffer, as
    /// `remaining_results` gave them; `None` when there are `BLOCK_SIZE` or more words.
    pub fn reconstruct(core: TripleMixSimdCore<R>, remaining_results: &[u64]) -> (r: Option<Self>)
        ensures
            (remaining_results@.len() < BLOCK_SIZE) == r.is_some(),
            r matches Some(p) ==> p.wf() && p.core_state() == core && p.buffered() == remaining_results@,
    {
        if remaining_results.len() < BLOCK_SIZE {
            let index = BLOCK_SIZE - remaining_results.len();
            let mut results = [0u64; BLOCK_SIZE];
            let mut i = index;
            while i < BLOCK_SIZE
                invariant
                    index <= i <= BLOCK_SIZE,
                    index + remaining_results@.len() == BLOCK_SIZE,
                    forall|j: int| index <= j < i ==> #[trigger] results[j] == remaining_results@[j - index],
                decreases BLOCK_SIZE - i,
            {
                results[i] = remaining_results[i - index];
                i += 1;
            }
            let p = TripleMixPrng { core, results, index };
            assert(p.buffered() =~= remaining_results@);
            Some(p)
        } else {
            None
        }
    }

    /// Overwrites the core with zeros and discards the buffer. The generator must not
    /// be used again afterwards.
    pub fn zeroize(&mut self)
        ensures
            final(self).wf(),
            final(self).core_state() == TripleMixSimdCore::<R>::zeroed(),
            final(self).buffered() == Seq::<u64>::empty(),
    {
        self.core.zeroize();
        self.discard_buffer();
    }
}

impl<R: Reproducibility> TripleMixPrng<R> {
    /// The first `n` bytes of the little-endian byte stream of the words handed out
    /// from word `k0` on.
    pub open spec fn stream_bytes(self, k0: nat, n: nat) -> Seq<u8> {
        Seq::new(n, |i: int| le_byte(self.word(k0 + (i / 8) as nat), i % 8))
    }

    /// The bytes of the `count` words handed out from word `k0` on, each whole and in
    /// the given byte order.
    pub open spec fn word_bytes(self, k0: nat, count: nat, little_endian: bool) -> Seq<u8> {
        Seq::new(8 * count, |i: int| ordered_byte(self.word(k0 + (i / 8) as nat), i % 8, little_endian))
    }

    /// Skipping `a` words and then `b` more is skipping `a + b`.
    pub proof fn lemma_skips_trans(self, mid: Self, last: Self, a: nat, b: nat)
        requires
            self.skips(mid, a),
            mid.skips(last, b),
        ensures
            self.skips(last, a + b),
    {
        assert forall|k: nat| #[trigger] last.word(k) == self.word(k + (a + b)) by {
            assert(last.word(k) == mid.word(k + b));
            assert(mid.word(k + b) == self.word(k + b + a));
            assert(k + b + a == k + (a + b));
        }
    }

    /// Bytes of what `next` hands out are bytes of what `self` hands out after `n`
    /// words.
    pub proof fn lemma_skips_bytes(self, next: Self, n: nat, k0: nat, len: nat, count: nat, le: bool)
        requires
            self.skips(next, n),
        ensures
            next.stream_bytes(k0, len) == self.stream_bytes(k0 + n, len),
            next.word_bytes(k0, count, le) == self.word_bytes(k0 + n, count, le),
    {
        assert forall|i: int| 0 <= i < len implies #[trigger] next.stream_bytes(k0, len)[i]
            == self.stream_bytes(k0 + n, len)[i] by {
            assert(next.word(k0 + (i / 8) as nat) == self.word(k0 + (i / 8) as nat + n));
            assert(k0 + (i / 8) as nat + n == (k0 + n) + (i / 8) as nat);
        }
        assert(next.stream_bytes(k0, len) =~= self.stream_bytes(k0 + n, len));
        assert forall|i: int| 0 <= i < 8 * count implies #[trigger] next.word_bytes(k0, count, le)[i]
            == self.word_bytes(k0 + n, count, le)[i] by {
            assert(next.word(k0 + (i / 8) as nat) == self.word(k0 + (i / 8) as nat + n));
            assert(k0 + (i / 8) as nat + n == (k0 + n) + (i / 8) as nat);
        }
        assert(next.word_bytes(k0, count, le) =~= self.word_bytes(k0 + n, count, le));
    }

    /// The number of buffered words.
    fn buffered_len(&self) -> (r: usize)
        ensures
            r == self.buffered().len(),
            r <= BLOCK_SIZE,
    {
        if self.index < BLOCK_SIZE {
            BLOCK_SIZE - self.index
        } else {
            0
        }
    }

    /// Writes the little-endian byte stream of the next words into `dest[start..end]`,
    /// word by word; the rest of a word written in part is discarded.
    fn fill_le_range(&mut self, dest: &mut [u8], start: usize, end: usize)
        requires
            start <= end <= old(dest)@.len(),
        ensures
            final(dest)@.len() == old(dest)@.len(),
            forall|i: int|
                0 <= i < old(dest)@.len() && !(start <= i < end) ==> final(dest)@[i] == old(
                    dest,
                )@[i],
            final(dest)@.subrange(start as int, end as int) == old(self).stream_bytes(
                0,
                (end - start) as nat,
            ),
            old(self).skips(*final(self), words_for((end - start) as nat)),
            old(self).wf() ==> final(self).wf(),
            final(self).state() == after_words(
                old(self).core_state(),
                old(self).buffered(),
                words_for((end - start) as nat),
            ),
    {
        let ghost s0 = *self;
        let ghost d0 = dest@;
        let ghost total = (end - start) as nat;
        let mut pos = start;
        let ghost mut k: nat = 0;
        assert(s0.skips(*self, 0)) by {
            assert forall|m: nat| #[trigger] self.word(m) == s0.word(m + 0) by {
                assert(m + 0 == m);
            }
        }
        while pos < end
            invariant
                start <= pos <= end <= dest@.len(),
                dest@.len() == d0.len(),
                total == end - start,
                pos == end || pos - start == 8 * k,
                pos - start <= 8 * k,
                k == words_for((pos - start) as nat),
                s0.skips(*self, k),
                s0.wf() ==> self.wf(),
                self.state() == after_words(s0.core_state(), s0.buffered(), k),
                forall|i: int| 0 <= i < d0.len() && !(start <= i < pos) ==> dest@[i] == d0[i],
                forall|i: int|
                    start <= i < pos ==> dest@[i] == #[trigger] s0.stream_bytes(0, total)[i - start],
            decreases end - pos,
        {
            let ghost before = *self;
            let ghost dbefore = dest@;
            let w = self.next_word();
            let n: usize = if end - pos < 8 {
                end - pos
            } else {
                8
            };
            write_word(dest, pos, w, n, true);
            proof {
                assert(w == s0.word(k)) by {
                    assert(before.word(0) == s0.word(0 + k));
                    assert(0 + k == k);
                }
                assert forall|m: nat| #[trigger] self.word(m) == s0.word(m + (k + 1)) by {
                    assert(self.word(m) == before.word(m + 1));
                    assert(before.word(m + 1) == s0.word(m + 1 + k));
                    assert(m + 1 + k == m + (k + 1));
                }
                s0.lemma_stream_chunk(total, k, w, n as nat);
                lemma_words_for_step(k, (pos - start) as nat, n as nat, (end - pos) as nat);
                assert forall|i: int| start <= i < pos + n implies dest@[i]
                    == #[trigger] s0.stream_bytes(0, total)[i - start] by {
                    if i >= pos {
                        assert(dest@[pos + (i - pos)] == ordered_byte(w, i - pos, true));
                        assert(i - start == 8 * k + (i - pos));
                    } else {
                        assert(dest@[i] == dbefore[i]);
                    }
                }
            }
            pos = pos + n;
            proof {
                k = k + 1;
            }
        }
        assert forall|i: int| 0 <= i < total implies #[trigger] dest@.subrange(
            start as int,
            end as int,
        )[i] == s0.stream_bytes(0, total)[i] by {
            assert(dest@[start + i] == s0.stream_bytes(0, total)[(start + i) - start]);
        }
        assert(dest@.subrange(start as int, end as int) =~= s0.stream_bytes(0, total));
    }

    /// Bytes `8 * k .. 8 * k + n` of the stream are the first `n` little-endian bytes of
    /// word `k`.
    proof fn lemma_stream_chunk(self, total: nat, k: nat, w: u64, n: nat)
        requires
            w == self.word(k),
            n <= 8,
            8 * k + n <= total,
        ensures
            forall|j: int| 0 <= j < n ==> #[trigger] self.stream_bytes(0, total)[8 * k + j] == ordered_byte(w, j, true),
    {
        assert forall|j: int| 0 <= j < n implies #[trigger] self.stream_bytes(0, total)[8 * k + j]
            == ordered_byte(w, j, true) by {
            lemma_div_mod_8(k as int, j);
            assert(((8 * k + j) / 8) as nat == k);
            assert(0 + k == k);
        }
    }
}

impl<R: Reproducibility> TripleMixPrng<R> {
    /// Word `r` of the block of the core's step `q` is word `q * BLOCK_SIZE + r` after
    /// the buffered ones.
    proof fn lemma_word_in_block(self, q: nat, r: nat)
        requires
            r < BLOCK_SIZE,
        ensures
            self.word(self.buffered().len() + 12 * q + r) == self.core.iterate(q).block()[r as int],
    {
        TripleMixSimdCore::<R>::lemma_stepped_is_iterate();
        let b = self.buffered().len();
        assert((b + 12 * q + r) - b == 12 * q + r);
        vstd::arithmetic::div_mod::lemma_fundamental_div_mod_converse(
            (12 * q + r) as int,
            12,
            q as int,
            r as int,
        );
    }

    /// After `n` steps of the core and with the buffer empty, the generator hands out
    /// what `self` hands out after its buffered words and `n` blocks.
    proof fn lemma_skips_blocks(self, next: Self, n: nat)
        requires
            next.core == self.core.iterate(n),
            next.buffered().len() == 0,
        ensures
            self.skips(next, self.buffered().len() + 12 * n),
    {
        TripleMixSimdCore::<R>::lemma_stepped_is_iterate();
        let b = self.buffered().len();
        assert forall|m: nat| #[trigger] next.word(m) == self.word(m + (b + 12 * n)) by {
            assert(next.buffered().len() == 0);
            vstd::arithmetic::div_mod::lemma_fundamental_div_mod(m as int, 12);
            vstd::arithmetic::div_mod::lemma_mod_bound(m as int, 12);
            let q = m / 12;
            let r = m % 12;
            self.core.lemma_iterate_add(n, q);
            assert((m + (b + 12 * n)) - b == 12 * (n + q) + r);
            vstd::arithmetic::div_mod::lemma_fundamental_div_mod_converse(
                (12 * (n + q) + r) as int,
                12,
                (n + q) as int,
                r as int,
            );
        }
    }

    /// `d` holds the first `done` of `count` words of `s0` from `start` on, and `d0`
    /// elsewhere.
    spec fn filled_words(
        s0: Self,
        d0: Seq<u8>,
        d: Seq<u8>,
        start: int,
        count: nat,
        done: nat,
        le: bool,
    ) -> bool {
        &&& d.len() == d0.len()
        &&& forall|i: int|
            0 <= i < d0.len() && !(start <= i < start + 8 * done) ==> d[i] == d0[i]
        &&& forall|i: int|
            start <= i < start + 8 * done ==> d[i] == #[trigger] s0.word_bytes(0, count, le)[i
                - start]
    }

    /// Writing word `done` of `s0` after the first `done` extends what is filled by one.
    proof fn lemma_filled_step(
        s0: Self,
        d0: Seq<u8>,
        d: Seq<u8>,
        next: Seq<u8>,
        start: int,
        count: nat,
        done: nat,
        le: bool,
        w: u64,
    )
        requires
            Self::filled_words(s0, d0, d, start, count, done, le),
            0 <= start,
            start + 8 * count <= d0.len(),
            done < count,
            w == s0.word(done),
            next.len() == d.len(),
            forall|i: int|
                0 <= i < d.len() && !(start + 8 * done <= i < start + 8 * done + 8) ==> next[i]
                    == d[i],
            forall|j: int| 0 <= j < 8 ==> next[start + 8 * done + j] == ordered_byte(w, j, le),
        ensures
            Self::filled_words(s0, d0, next, start, count, done + 1, le),
    {
        assert forall|i: int| start <= i < start + 8 * (done + 1) implies next[i]
            == #[trigger] s0.word_bytes(0, count, le)[i - start] by {
            if i >= start + 8 * done {
                let j = i - (start + 8 * done);
                lemma_div_mod_8(done as int, j);
                assert(next[start + 8 * done + j] == ordered_byte(w, j, le));
                assert(i - start == 8 * done + j);
                assert(((i - start) / 8) as nat == done);
                assert(0 + done == done);
            } else {
                assert(next[i] == d[i]);
            }
        }
    }

    /// Writes the next `count` words, each whole and in the given byte order, into
    /// `dest` from `start` on. When they reach past the buffered words, the buffered
    /// words are copied, whole blocks go from the core straight into `dest`, the buffer
    /// is emptied and the last words come from a new block.
    fn fill_words(&mut self, dest: &mut [u8], start: usize, count: usize, little_endian: bool)
        requires
            start + 8 * count <= old(dest)@.len(),
        ensures
            Self::filled_words(
                *old(self),
                old(dest)@,
                final(dest)@,
                start as int,
                count as nat,
                count as nat,
                little_endian,
            ),
            old(self).skips(*final(self), count as nat),
            old(self).wf() ==> final(self).wf(),
            final(self).state() == after_words(
                old(self).core_state(),
                old(self).buffered(),
                count as nat,
            ),
    {
        let ghost s0 = *self;
        let ghost d0 = dest@;
        let len = dest.len();
        let buffered = self.buffered_len();
        assert(s0.skips(*self, 0)) by {
            assert forall|m: nat| #[trigger] self.word(m) == s0.word(m + 0) by {
                assert(m + 0 == m);
            }
        }
        if count <= buffered {
            let mut k: usize = 0;
            while k < count
                invariant
                    k <= count,
                    len == dest@.len(),
                    start + 8 * count <= len,
                    s0.skips(*self, k as nat),
                    s0.wf() ==> self.wf(),
                    self.state() == after_words(s0.core_state(), s0.buffered(), k as nat),
                    Self::filled_words(s0, d0, dest@, start as int, count as nat, k as nat, little_endian),
                decreases count - k,
            {
                let ghost before = *self;
                let ghost dbefore = dest@;
                let w = self.next_word();
                write_word(dest, start + 8 * k, w, 8, little_endian);
                proof {
                    assert(before.word(0) == s0.word(0 + k as nat));
                    assert(0 + k as nat == k as nat);
                    Self::lemma_filled_step(
                        s0,
                        d0,
                        dbefore,
                        dest@,
                        start as int,
                        count as nat,
                        k as nat,
                        little_endian,
                        w,
                    );
                    before.lemma_skips_trans_from(s0, *self, k as nat);
                }
                k += 1;
            }
        } else {
            let mut k: usize = 0;
            while k < buffered
                invariant
                    k <= buffered < count,
                    buffered == s0.buffered().len(),
                    *self == s0,
                    len == dest@.len(),
                    start + 8 * count <= len,
                    Self::filled_words(s0, d0, dest@, start as int, count as nat, k as nat, little_endian),
                decreases buffered - k,
            {
                let ghost dbefore = dest@;
                let w = self.results[self.index + k];
                write_word(dest, start + 8 * k, w, 8, little_endian);
                proof {
                    assert(s0.word(k as nat) == s0.buffered()[k as int]);
                    Self::lemma_filled_step(
                        s0,
                        d0,
                        dbefore,
                        dest@,
                        start as int,
                        count as nat,
                        k as nat,
                        little_endian,
                        w,
                    );
                }
                k += 1;
            }
            let nblocks = (count - buffered) / BLOCK_SIZE;
            let mut q: usize = 0;
            while q < nblocks
                invariant
                    q <= nblocks,
                    nblocks == (count - buffered) / 12,
                    buffered == s0.buffered().len(),
                    buffered < count,
                    self.core == s0.core.iterate(q as nat),
                    self.index == s0.index,
                    len == dest@.len(),
                    start + 8 * count <= len,
                    Self::filled_words(
                        s0,
                        d0,
                        dest@,
                        start as int,
                        count as nat,
                        (buffered + 12 * q) as nat,
                        little_endian,
                    ),
                decreases nblocks - q,
            {
                let ghost core_before = self.core;
                let block = self.core.step_block();
                proof {
                    core_before.lemma_block_len();
                    s0.core.lemma_step_iterate(q as nat);
                    assert(self.core == s0.core.iterate(q as nat).step());
                    assert(s0.core.iterate(q as nat + 1) == s0.core.iterate(q as nat).step());
                    vstd::arithmetic::div_mod::lemma_fundamental_div_mod(
                        (count - buffered) as int,
                        12,
                    );
                }
                let mut r: usize = 0;
                while r < BLOCK_SIZE
                    invariant
                        r <= BLOCK_SIZE,
                        q < nblocks,
                        nblocks == (count - buffered) / 12,
                        buffered + 12 * (q + 1) <= count,
                        buffered == s0.buffered().len(),
                        block@ == s0.core.iterate(q as nat).block(),
                        len == dest@.len(),
                        start + 8 * count <= len,
                        Self::filled_words(
                            s0,
                            d0,
                            dest@,
                            start as int,
                            count as nat,
                            (buffered + 12 * q + r) as nat,
                            little_endian,
                        ),
                    decreases BLOCK_SIZE - r,
                {
                    let ghost dbefore = dest@;
                    let w = block[r];
                    write_word(dest, start + 8 * (buffered + BLOCK_SIZE * q + r), w, 8, little_endian);
                    proof {
                        s0.lemma_word_in_block(q as nat, r as nat);
                        Self::lemma_filled_step(
                            s0,
                            d0,
                            dbefore,
                            dest@,
                            start as int,
                            count as nat,
                            (buffered + 12 * q + r) as nat,
                            little_endian,
                            w,
                        );
                    }
                    r += 1;
                }
                q += 1;
            }
            self.discard_buffer();
            proof {
                s0.lemma_skips_blocks(*self, nblocks as nat);
                lemma_after_buffered(s0.core_state(), s0.buffered(), buffered as nat);
                assert(s0.buffered().skip(buffered as int) =~= Seq::<u64>::empty());
                lemma_after_words_add(
                    s0.core_state(),
                    s0.buffered(),
                    buffered as nat,
                    12 * nblocks as nat,
                );
                lemma_after_blocks(s0.core_state(), nblocks as nat);
                assert(self.buffered() =~= Seq::<u64>::empty());
                vstd::arithmetic::div_mod::lemma_fundamental_div_mod((count - buffered) as int, 12);
            }
            let mut k: usize = buffered + BLOCK_SIZE * nblocks;
            while k < count
                invariant
                    buffered + 12 * nblocks <= k <= count,
                    self.wf(),
                    self.state() == after_words(s0.core_state(), s0.buffered(), k as nat),
                    len == dest@.len(),
                    start + 8 * count <= len,
                    s0.skips(*self, k as nat),
                    Self::filled_words(s0, d0, dest@, start as int, count as nat, k as nat, little_endian),
                decreases count - k,
            {
                let ghost before = *self;
                let ghost dbefore = dest@;
                let w = self.next_word();
                write_word(dest, start + 8 * k, w, 8, little_endian);
                proof {
                    assert(before.word(0) == s0.word(0 + k as nat));
                    assert(0 + k as nat == k as nat);
                    Self::lemma_filled_step(
                        s0,
                        d0,
                        dbefore,
                        dest@,
                        start as int,
                        count as nat,
                        k as nat,
                        little_endian,
                        w,
                    );
                    before.lemma_skips_trans_from(s0, *self, k as nat);
                }
                k += 1;
            }
        }
    }

    /// `s0` skips `k` words to `self`, and `self` one more to `next`: `s0` skips `k + 1`.
    proof fn lemma_skips_trans_from(self, s0: Self, next: Self, k: nat)
        requires
            s0.skips(self, k),
            self.skips(next, 1),
        ensures
            s0.skips(next, k + 1),
    {
        s0.lemma_skips_trans(self, next, k, 1);
    }
}

impl<R: Reproducibility> TripleMixPrng<R> {
    /// A well-formed generator buffers fewer than `BLOCK_SIZE` words, so what
    /// `remaining_results` gives back is always taken back by `reconstruct`.
    pub proof fn lemma_buffered_fits(self)
        requires
            self.wf(),
        ensures
            self.buffered().len() < BLOCK_SIZE,
    {
    }

    /// Two generators with the same core and the same buffered words hand out the
    /// same words.
    pub proof fn lemma_same_words(self, other: Self)
        requires
            self.core_state() == other.core_state(),
            self.buffered() == other.buffered(),
        ensures
            forall|k: nat| #[trigger] self.word(k) == other.word(k),
    {
    }

    /// After `advance(n)` (with the buffer emptied), the generator hands out what it
    /// would have handed out after its buffered words and `n` more blocks.
    pub proof fn lemma_advance_skips(self, next: Self, n: nat)
        requires
            self.core_state().mwc_valid(),
            next.core_state() == self.core_state().advanced(n),
            next.buffered().len() == 0,
        ensures
            self.skips(next, self.buffered().len() + (BLOCK_SIZE as nat) * n),
    {
        TripleMixSimdCore::<R>::lemma_stepped_is_iterate();
        let b = self.buffered().len();
        assert forall|m: nat| #[trigger] next.word(m) == self.word(m + (b + 12 * n)) by {
            vstd::arithmetic::div_mod::lemma_fundamental_div_mod(m as int, 12);
            vstd::arithmetic::div_mod::lemma_mod_bound(m as int, 12);
            let q = m / 12;
            let r = m % 12;
            self.core.lemma_advanced_output(n, q);
            self.core.advanced(n).lemma_stepped_unfold(q);
            self.core.advanced(n).iterate(q).lemma_stepped_unfold(0);
            self.core.lemma_stepped_unfold(n + q);
            self.core.iterate(n + q).lemma_stepped_unfold(0);
            assert((m + (b + 12 * n)) - b == 12 * (n + q) + r);
            vstd::arithmetic::div_mod::lemma_fundamental_div_mod_converse(
                (12 * (n + q) + r) as int,
                12,
                (n + q) as int,
                r as int,
            );
        }
    }

    /// `advance(n)` lands exactly where handing out the buffered words and then
    /// `BLOCK_SIZE * n` more words one by one lands: the same core, with an empty
    /// buffer.
    pub proof fn lemma_advance_is_words(self, n: nat)
        requires
            self.core_state().mwc_valid(),
        ensures
            after_words(
                self.core_state(),
                self.buffered(),
                self.buffered().len() + BLOCK_SIZE as nat * n,
            ) == (self.core_state().advanced(n), Seq::<u64>::empty()),
    {
        let c = self.core_state();
        let b = self.buffered();
        lemma_after_buffered(c, b, b.len());
        assert(b.skip(b.len() as int) =~= Seq::<u64>::empty());
        lemma_after_words_add(c, b, b.len(), BLOCK_SIZE as nat * n);
        lemma_after_whole_blocks(c, n);
        c.lemma_advanced_is_stepped(n);
    }

    /// Rebuilds a generator from a core and the unused words of its buffer, as a
    /// serialized generator holds them; with `BLOCK_SIZE` or more words, they are
    /// dropped and the generator starts with an empty buffer.
    pub fn from_core_and_remaining(core: TripleMixSimdCore<R>, remaining_results: &[u64]) -> (r: Self)
        ensures
            r.wf(),
            r.core_state() == core,
            r.buffered() == (if remaining_results@.len() < BLOCK_SIZE {
                remaining_results@
            } else {
                Seq::<u64>::empty()
            }),
    {
        let copy = core.clone();
        match Self::reconstruct(core, remaining_results) {
            Some(p) => p,
            None => Self::from_core(copy),
        }
    }
}

/// The number of words the split layout uses for `len` bytes: one per started word of
/// the prefix, the aligned words, and one per started word after them.
pub open spec fn split_words(len: nat, prefix: nat, words: nat) -> nat {
    words_for(prefix) + words + words_for((len - prefix - 8 * words) as nat)
}

/// The number of words `fill_bytes` uses for `len` bytes under `layout`, given the
/// prefix length and aligned word count of the slice and the machine's byte order.
pub open spec fn fill_words_used(
    layout: ByteLayout,
    len: nat,
    prefix: nat,
    words: nat,
    little_endian: bool,
) -> nat {
    match layout {
        ByteLayout::SplitAtAlignment => if words == 0 {
            words_for(len)
        } else {
            split_words(len, prefix, words)
        },
        ByteLayout::AlignedWordsOnly => split_words(len, 0, len / 8),
        ByteLayout::LittleEndianStream => if little_endian && prefix == 0 {
            split_words(len, 0, words)
        } else {
            words_for(len)
        },
    }
}

impl<R: Reproducibility> TripleMixPrng<R> {
    /// The bytes of the split layout: `prefix` bytes of the stream, then `words` whole
    /// words in the given order, then the rest from the stream of the next words.
    pub open spec fn split_output(self, len: nat, prefix: nat, words: nat, little_endian: bool) -> Seq<u8> {
        let k1 = words_for(prefix);
        self.stream_bytes(0, prefix) + self.word_bytes(k1, words, little_endian)
            + self.stream_bytes(k1 + words, (len - prefix - 8 * words) as nat)
    }

    /// The bytes `fill_bytes` writes into `len` bytes under `layout`, given the prefix
    /// length and aligned word count of the slice and the machine's byte order.
    pub open spec fn fill_output(
        self,
        layout: ByteLayout,
        len: nat,
        prefix: nat,
        words: nat,
        little_endian: bool,
    ) -> Seq<u8> {
        match layout {
            ByteLayout::SplitAtAlignment => if words == 0 {
                self.stream_bytes(0, len)
            } else {
                self.split_output(len, prefix, words, little_endian)
            },
            ByteLayout::AlignedWordsOnly => self.split_output(len, 0, len / 8, little_endian),
            ByteLayout::LittleEndianStream => if little_endian && prefix == 0 {
                self.split_output(len, 0, words, little_endian)
            } else {
                self.stream_bytes(0, len)
            },
        }
    }

    /// Skipping no words leaves what is handed out as it is.
    pub proof fn lemma_skips_refl(self)
        ensures
            self.skips(self, 0),
    {
        assert forall|m: nat| #[trigger] self.word(m) == self.word(m + 0) by {
            assert(m + 0 == m);
        }
    }

    /// With no prefix and little-endian words, the split layout is the byte stream,
    /// and uses one word per started eight bytes.
    pub proof fn lemma_split_little_endian_is_stream(self, len: nat, words: nat)
        requires
            8 * words <= len,
        ensures
            self.split_output(len, 0, words, true) == self.stream_bytes(0, len),
            split_words(len, 0, words) == words_for(len),
    {
        let out = self.split_output(len, 0, words, true);
        let st = self.stream_bytes(0, len);
        assert(words_for(0) == 0);
        assert forall|i: int| 0 <= i < len implies #[trigger] out[i] == st[i] by {
            vstd::arithmetic::div_mod::lemma_fundamental_div_mod(i, 8);
            vstd::arithmetic::div_mod::lemma_mod_bound(i, 8);
            if i < 8 * words {
                assert(out[i] == self.word_bytes(0, words, true)[i]);
                assert(0 + (i / 8) as nat == (i / 8) as nat);
            } else {
                let j = i - 8 * words;
                assert(out[i] == self.stream_bytes(words, (len - 8 * words) as nat)[j]);
                vstd::arithmetic::div_mod::lemma_fundamental_div_mod_converse(
                    j,
                    8,
                    i / 8 - words,
                    i % 8,
                );
                assert(words + (j / 8) as nat == (i / 8) as nat);
            }
        }
        assert(out =~= st);
        vstd::arithmetic::div_mod::lemma_fundamental_div_mod((len - 8 * words + 7) as int, 8);
        vstd::arithmetic::div_mod::lemma_mod_bound((len - 8 * words + 7) as int, 8);
        vstd::arithmetic::div_mod::lemma_fundamental_div_mod_converse(
            len + 7int,
            8,
            words + (len - 8 * words + 7) / 8,
            (len - 8 * words + 7) % 8,
        );
    }

    /// Writes the split layout into `bytes`: the stream into the first `prefix` bytes,
    /// `words` whole words in the given order after them, the stream of the next words
    /// into the rest.
    #[verifier::rlimit(40)]
    fn fill_split(&mut self, bytes: &mut [u8], prefix: usize, words: usize, little_endian: bool)
        requires
            prefix + 8 * words <= old(bytes)@.len(),
        ensures
            final(bytes)@ == old(self).split_output(
                old(bytes)@.len(),
                prefix as nat,
                words as nat,
                little_endian,
            ),
            old(self).skips(*final(self), split_words(old(bytes)@.len(), prefix as nat, words as nat)),
            old(self).wf() ==> final(self).wf(),
            final(self).state() == after_words(
                old(self).core_state(),
                old(self).buffered(),
                split_words(old(bytes)@.len(), prefix as nat, words as nat),
            ),
    {
        let ghost s0 = *self;
        let len = bytes.len();
        let ghost lenn = len as nat;
        let mid = prefix + 8 * words;
        proof {
            s0.lemma_skips_refl();
        }
        if prefix > 0 {
            self.fill_le_range(bytes, 0, prefix);
        }
        let ghost s1 = *self;
        let ghost d1 = bytes@;
        assert(s1.state() == after_words(s0.core_state(), s0.buffered(), words_for(prefix as nat)))
            by {
            if prefix == 0 {
                assert(words_for(0) == 0);
                assert(after_words(s0.core_state(), s0.buffered(), 0) == s0.state());
            }
        }
        assert(d1.subrange(0, prefix as int) == s0.stream_bytes(0, prefix as nat)) by {
            if prefix == 0 {
                assert(d1.subrange(0, 0) =~= s0.stream_bytes(0, 0));
            }
        }
        assert(words_for(0) == 0);
        self.fill_words(bytes, prefix, words, little_endian);
        let ghost s2 = *self;
        let ghost d2 = bytes@;
        assert(s2.state() == after_words(
            s0.core_state(),
            s0.buffered(),
            words_for(prefix as nat) + words as nat,
        )) by {
            lemma_after_words_add(s0.core_state(), s0.buffered(), words_for(prefix as nat), words as nat);
        }
        proof {
            s0.lemma_skips_bytes(s1, words_for(prefix as nat), 0, 0, words as nat, little_endian);
            s0.lemma_skips_trans(s1, s2, words_for(prefix as nat), words as nat);
            s2.lemma_skips_refl();
            assert(d2.subrange(prefix as int, mid as int) =~= s1.word_bytes(0, words as nat, little_endian)) by {
                assert forall|i: int| 0 <= i < 8 * words implies #[trigger] d2.subrange(prefix as int, mid as int)[i]
                    == s1.word_bytes(0, words as nat, little_endian)[i] by {
                    assert(d2[prefix + i] == s1.word_bytes(0, words as nat, little_endian)[(prefix + i) - prefix]);
                }
            }
        }
        if mid < len {
            self.fill_le_range(bytes, mid, len);
        }
        let ghost s3 = *self;
        let ghost d3 = bytes@;
        assert(s3.state() == after_words(
            s0.core_state(),
            s0.buffered(),
            split_words(lenn, prefix as nat, words as nat),
        )) by {
            let k2: nat = words_for(prefix as nat) + words as nat;
            lemma_after_words_add(s0.core_state(), s0.buffered(), k2, words_for((len - mid) as nat));
            if mid == len {
                assert(words_for(0) == 0);
                assert(after_words(s2.core_state(), s2.buffered(), 0) == s2.state());
            }
        }
        proof {
            assert(d3.subrange(mid as int, len as int) == s2.stream_bytes(0, (len - mid) as nat)) by {
                if mid == len {
                    assert(d3.subrange(mid as int, len as int) =~= s2.stream_bytes(0, 0));
                }
            }
            assert(words_for(0) == 0);
            let k2: nat = words_for(prefix as nat) + words as nat;
            s0.lemma_skips_bytes(s2, k2, 0, (len - mid) as nat, 0, little_endian);
            s0.lemma_skips_trans(s2, s3, k2, words_for((len - mid) as nat));
            let out = s0.split_output(lenn, prefix as nat, words as nat, little_endian);
            assert forall|i: int| 0 <= i < len implies #[trigger] d3[i] == out[i] by {
                if i < prefix {
                    assert(d3[i] == d2[i]);
                    assert(d2[i] == d1[i]);
                    assert(d1.subrange(0, prefix as int)[i] == d1[i]);
                } else if i < mid {
                    assert(d3[i] == d2[i]);
                    assert(d2.subrange(prefix as int, mid as int)[i - prefix] == d2[i]);
                } else {
                    assert(d3.subrange(mid as int, len as int)[i - mid] == d3[i]);
                }
            }
            assert(d3 =~= out);
        }
    }

    /// Writes `bytes` under the alignment-aware layout: the stream when the slice does
    /// not start aligned, the split layout without prefix otherwise.
    fn fill_alignment_aware(&mut self, bytes: &mut [u8], prefix: usize, words: usize, little_endian: bool)
        requires
            prefix + 8 * words <= old(bytes)@.len(),
        ensures
            final(bytes)@ == (if prefix > 0 {
                old(self).stream_bytes(0, old(bytes)@.len())
            } else {
                old(self).split_output(old(bytes)@.len(), 0, words as nat, little_endian)
            }),
            old(self).skips(
                *final(self),
                if prefix > 0 {
                    words_for(old(bytes)@.len())
                } else {
                    split_words(old(bytes)@.len(), 0, words as nat)
                },
            ),
            old(self).wf() ==> final(self).wf(),
            final(self).state() == after_words(
                old(self).core_state(),
                old(self).buffered(),
                if prefix > 0 {
                    words_for(old(bytes)@.len())
                } else {
                    split_words(old(bytes)@.len(), 0, words as nat)
                },
            ),
    {
        let len = bytes.len();
        if prefix > 0 {
            self.fill_le_range(bytes, 0, len);
            assert(bytes@ =~= bytes@.subrange(0, len as int));
        } else {
            self.fill_split(bytes, 0, words, little_endian);
        }
    }

    /// Fills `bytes` with output, given the length of the unaligned prefix of `bytes`,
    /// the number of aligned words after it and the machine's byte order. Under every
    /// layout, a slice with no prefix on a little-endian machine gets the little-endian
    /// byte stream of the words; under `LittleEndianStream` every slice does, and under
    /// `AlignedWordsOnly` every slice on a little-endian machine; `AlignedWordsOnly` does
    /// not look at the prefix length or word count at all. Under the two reproducible
    /// layouts one word is used per started eight bytes. The core and buffered words
    /// afterwards are those of handing out the used words one by one.
    pub fn fill_bytes_with_layout(
        &mut self,
        bytes: &mut [u8],
        prefix_len: usize,
        word_count: usize,
        little_endian: bool,
    )
        requires
            prefix_len + 8 * word_count <= old(bytes)@.len(),
        ensures
            final(bytes)@ == old(self).fill_output(
                R::layout_spec(),
                old(bytes)@.len(),
                prefix_len as nat,
                word_count as nat,
                little_endian,
            ),
            old(self).skips(
                *final(self),
                fill_words_used(
                    R::layout_spec(),
                    old(bytes)@.len(),
                    prefix_len as nat,
                    word_count as nat,
                    little_endian,
                ),
            ),
            R::layout_spec() == ByteLayout::LittleEndianStream || (little_endian && prefix_len
                == 0) ==> final(bytes)@ == old(self).stream_bytes(0, old(bytes)@.len()),
            R::layout_spec() == ByteLayout::AlignedWordsOnly && little_endian ==> final(bytes)@
                == old(self).stream_bytes(0, old(bytes)@.len()),
            R::layout_spec() == ByteLayout::AlignedWordsOnly ==> final(bytes)@ == old(
                self,
            ).split_output(old(bytes)@.len(), 0, old(bytes)@.len() / 8, little_endian),
            R::layout_spec() != ByteLayout::SplitAtAlignment ==> old(self).skips(
                *final(self),
                words_for(old(bytes)@.len()),
            ),
            old(self).wf() ==> final(self).wf(),
            final(self).state() == after_words(
                old(self).core_state(),
                old(self).buffered(),
                fill_words_used(
                    R::layout_spec(),
                    old(bytes)@.len(),
                    prefix_len as nat,
                    word_count as nat,
                    little_endian,
                ),
            ),
            R::layout_spec() != ByteLayout::SplitAtAlignment ==> final(self).state() == after_words(
                old(self).core_state(),
                old(self).buffered(),
                words_for(old(bytes)@.len()),
            ),
    {
        let len = bytes.len();
        let ghost s0 = *self;
        proof {
            s0.lemma_split_little_endian_is_stream(len as nat, word_count as nat);
            s0.lemma_split_little_endian_is_stream(len as nat, (len / 8) as nat);
            if word_count > 0 {
                assert(prefix_len + 8 * word_count <= len);
            }
        }
        match R::byte_layout() {
            ByteLayout::SplitAtAlignment => {
                if word_count == 0 {
                    self.fill_le_range(bytes, 0, len);
                    assert(bytes@ =~= bytes@.subrange(0, len as int));
                } else {
                    self.fill_split(bytes, prefix_len, word_count, little_endian);
                }
            },
            ByteLayout::AlignedWordsOnly => {
                self.fill_split(bytes, 0, len / 8, little_endian);
            },
            ByteLayout::LittleEndianStream => {
                if little_endian {
                    self.fill_alignment_aware(bytes, prefix_len, word_count, little_endian);
                } else {
                    self.fill_le_range(bytes, 0, len);
                    assert(bytes@ =~= bytes@.subrange(0, len as int));
                }
            },
        }
        proof {
            if word_count == 0 && little_endian && prefix_len == 0 {
                s0.lemma_split_little_endian_is_stream(len as nat, 0);
            }
            if word_count == 0 {
                assert(words_for(0) == 0);
            }
        }
    }

    /// Fills `bytes` with output. The layout of the bytes follows the reproducibility
    /// level `R`: under `NotReproducible` it may depend on where `bytes` lies in memory
    /// and on the machine's byte order; under `SameEndianness` it depends only on the
    /// length of `bytes` and the machine's byte order; under `CrossPlatform` it is always
    /// the little-endian byte stream of the words. Under `SameEndianness` and
    /// `CrossPlatform` the state afterwards depends only on the length of `bytes`.
    pub fn fill_bytes(&mut self, bytes: &mut [u8])
        ensures
            exists|prefix: nat, words: nat, little_endian: bool|
                #![trigger old(self).fill_output(R::layout_spec(), old(bytes)@.len(), prefix, words, little_endian)]
                prefix + 8 * words <= old(bytes)@.len() && final(bytes)@ == old(self).fill_output(
                    R::layout_spec(),
                    old(bytes)@.len(),
                    prefix,
                    words,
                    little_endian,
                ) && old(self).skips(
                    *final(self),
                    fill_words_used(R::layout_spec(), old(bytes)@.len(), prefix, words, little_endian),
                ) && final(self).state() == after_words(
                    old(self).core_state(),
                    old(self).buffered(),
                    fill_words_used(R::layout_spec(), old(bytes)@.len(), prefix, words, little_endian),
                ),
            R::layout_spec() == ByteLayout::LittleEndianStream ==> final(bytes)@ == old(self).stream_bytes(
                0,
                old(bytes)@.len(),
            ),
            R::layout_spec() != ByteLayout::SplitAtAlignment ==> old(self).skips(
                *final(self),
                words_for(old(bytes)@.len()),
            ),
            R::layout_spec() != ByteLayout::SplitAtAlignment ==> final(self).state() == after_words(
                old(self).core_state(),
                old(self).buffered(),
                words_for(old(bytes)@.len()),
            ),
            R::layout_spec() == ByteLayout::AlignedWordsOnly ==> exists|little_endian: bool|
                final(bytes)@ == #[trigger] old(self).split_output(
                    old(bytes)@.len(),
                    0,
                    old(bytes)@.len() / 8,
                    little_endian,
                ),
            old(self).wf() ==> final(self).wf(),
    {
        let (prefix_len, word_count) = aligned_layout(bytes);
        let little_endian = native_is_little_endian();
        self.fill_bytes_with_layout(bytes, prefix_len, word_count, little_endian);
    }
}


/// The core and buffered words after handing out one word from `(core, buffered)`:
/// the first buffered word, or, with the buffer empty, the first word of the block of
/// a new step, the rest of that block staying buffered.
pub open spec fn after_word<R: Reproducibility>(
    core: TripleMixSimdCore<R>,
    buffered: Seq<u64>,
) -> (TripleMixSimdCore<R>, Seq<u64>) {
    if buffered.len() > 0 {
        (core, buffered.drop_first())
    } else {
        (core.stepped(1), core.output_block().drop_first())
    }
}

/// The core and buffered words after handing out `n` words one by one.
pub open spec fn after_words<R: Reproducibility>(
    core: TripleMixSimdCore<R>,
    buffered: Seq<u64>,
    n: nat,
) -> (TripleMixSimdCore<R>, Seq<u64>)
    decreases n,
{
    if n == 0 {
        (core, buffered)
    } else {
        let prev = after_words(core, buffered, (n - 1) as nat);
        after_word(prev.0, prev.1)
    }
}

/// Handing out `a` words and then `b` more is handing out `a + b`.
pub proof fn lemma_after_words_add<R: Reproducibility>(
    core: TripleMixSimdCore<R>,
    buffered: Seq<u64>,
    a: nat,
    b: nat,
)
    ensures
        after_words(after_words(core, buffered, a).0, after_words(core, buffered, a).1, b)
            == after_words(core, buffered, a + b),
    decreases b,
{
    if b > 0 {
        lemma_after_words_add(core, buffered, a, (b - 1) as nat);
        assert(a + b - 1 == a + (b - 1) as nat);
    }
}

/// Handing out at most the buffered words only shortens the buffer.
pub proof fn lemma_after_buffered<R: Reproducibility>(
    core: TripleMixSimdCore<R>,
    buffered: Seq<u64>,
    k: nat,
)
    requires
        k <= buffered.len(),
    ensures
        after_words(core, buffered, k) == (core, buffered.skip(k as int)),
    decreases k,
{
    if k > 0 {
        lemma_after_buffered(core, buffered, (k - 1) as nat);
        assert(buffered.skip((k - 1) as int).drop_first() =~= buffered.skip(k as int));
    } else {
        assert(buffered.skip(0) =~= buffered);
    }
}

/// From an empty buffer, `BLOCK_SIZE * q` words handed out one by one leave the core
/// `q` steps on and the buffer empty: what `advance(q)` does to those sub-generators.
pub proof fn lemma_after_whole_blocks<R: Reproducibility>(core: TripleMixSimdCore<R>, q: nat)
    ensures
        after_words(core, Seq::<u64>::empty(), BLOCK_SIZE as nat * q) == (
            core.stepped(q),
            Seq::<u64>::empty(),
        ),
{
    lemma_after_blocks(core, q);
    TripleMixSimdCore::<R>::lemma_stepped_is_iterate();
}

/// From an empty buffer, `BLOCK_SIZE * q` words one by one leave the core `q` steps on
/// and the buffer empty.
proof fn lemma_after_blocks<R: Reproducibility>(core: TripleMixSimdCore<R>, q: nat)
    ensures
        after_words(core, Seq::<u64>::empty(), 12 * q) == (core.iterate(q), Seq::<u64>::empty()),
    decreases q,
{
    TripleMixSimdCore::<R>::lemma_stepped_is_iterate();
    if q > 0 {
        let q1 = (q - 1) as nat;
        lemma_after_blocks(core, q1);
        let c = core.iterate(q1);
        lemma_after_words_add(core, Seq::<u64>::empty(), 12 * q1, 12);
        assert(12 * q1 + 12 == 12 * q);
        // one block from c
        lemma_after_words_add(c, Seq::<u64>::empty(), 1, 11);
        assert(after_words(c, Seq::<u64>::empty(), 0) == (c, Seq::<u64>::empty()));
        assert(after_words(c, Seq::<u64>::empty(), 1) == after_word(c, Seq::<u64>::empty()));
        c.lemma_block_len();
        assert(c.iterate(1) == c.iterate(0).step());
        assert(c.iterate(0) == c);
        core.lemma_step_iterate(q1);
        core.lemma_iterate_add(q1, 1);
        lemma_after_buffered(c.iterate(1), c.block().drop_first(), 11);
        assert(c.block().drop_first().skip(11) =~= Seq::<u64>::empty());
    } else {
        assert(core.iterate(0) == core);
    }
}

/// `(8 * k + j) / 8 == k` and `(8 * k + j) % 8 == j` for `j < 8`.
proof fn lemma_div_mod_8(k: int, j: int)
    requires
        0 <= k,
        0 <= j < 8,
    ensures
        (8 * k + j) / 8 == k,
        (8 * k + j) % 8 == j,
{
    vstd::arithmetic::div_mod::lemma_fundamental_div_mod_converse(8 * k + j, 8, k, j);
}

/// After `8 * k` bytes and then `n` more, with `n == 8` or `n` the last `1..8` bytes,
/// `k + 1` words are used.
proof fn lemma_words_for_step(k: nat, done: nat, n: nat, rest: nat)
    requires
        done == 8 * k,
        1 <= n <= 8,
        n <= rest,
        n == 8 || n == rest,
    ensures
        k == words_for(done),
        k + 1 == words_for(done + n),
        done + n == 8 * (k + 1) || n == rest,
{
    vstd::arithmetic::div_mod::lemma_fundamental_div_mod_converse(done + 7int, 8, k as int, 7);
    vstd::arithmetic::div_mod::lemma_fundamental_div_mod_converse(
        done + n + 7int,
        8,
        k + 1int,
        n - 1int,
    );
}

/// Writes the first `n` bytes of `w`, in the given order, at `pos`.
fn write_word(dest: &mut [u8], pos: usize, w: u64, n: usize, little_endian: bool)
    requires
        n <= 8,
        pos + n <= old(dest)@.len(),
    ensures
        final(dest)@.len() == old(dest)@.len(),
        forall|i: int|
            0 <= i < old(dest)@.len() && !(pos <= i < pos + n) ==> final(dest)@[i] == old(
                dest,
            )@[i],
        forall|j: int| 0 <= j < n ==> final(dest)@[pos + j] == ordered_byte(w, j, little_endian),
{
    let ghost d0 = dest@;
    let len = dest.len();
    let mut j: usize = 0;
    while j < n
        invariant
            j <= n <= 8,
            len == dest@.len(),
            pos + n <= len,
            dest@.len() == d0.len(),
            forall|i: int| 0 <= i < d0.len() && !(pos <= i < pos + j) ==> dest@[i] == d0[i],
            forall|k: int| 0 <= k < j ==> dest@[pos + k] == ordered_byte(w, k, little_endian),
        decreases n - j,
    {
        let shift: u64 = if little_endian {
            8 * (j as u64)
        } else {
            8 * (7 - j as u64)
        };
        #[verifier::truncate]
        let b = ((w >> shift) & 0xff) as u8;
        dest[pos + j] = b;
        j += 1;
    }
}

} // verus!
