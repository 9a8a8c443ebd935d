//! The packed idle-queue word: `[worker_index | state:2 | aba_tag:8]`.
use vstd::prelude::*;

verus! {

/// Largest worker index that fits above the state and ABA bits of a 64-bit word.
pub const MAX_WORKERS: u64 = 0x3f_ffff_ffff_ffff;

/// Wake state of a node's idle queue.
#[derive(Clone, Copy, Debug, PartialEq, Eq, Structural)]
pub enum IdleState {
    Ready,
    Waking,
    Notified,
    Shutdown,
}

/// The two-bit code of a state.
pub open spec fn state_code(s: IdleState) -> u64 {
    match s {
        IdleState::Ready => 0,
        IdleState::Waking => 1,
        IdleState::Notified => 2,
        IdleState::Shutdown => 3,
    }
}

/// The state whose code is `c` (taken modulo 4).
pub open spec fn state_of_code(c: u64) -> IdleState {
    if c % 4 == 0 {
        IdleState::Ready
    } else if c % 4 == 1 {
        IdleState::Waking
    } else if c % 4 == 2 {
        IdleState::Notified
    } else {
        IdleState::Shutdown
    }
}

/// The word holding index `index`, state code `code` and tag `aba`.
pub open spec fn pack(index: u64, code: u64, aba: u64) -> u64 {
    (index << 10u64) | (code << 8u64) | aba
}

/// Worker index (1-based, 0 for none) held by a word.
pub open spec fn word_index(w: u64) -> u64 {
    w >> 10u64
}

/// State held by a word.
pub open spec fn word_state(w: u64) -> IdleState {
    state_of_code((w >> 8u64) & 3u64)
}

/// ABA tag held by a word.
pub open spec fn word_aba(w: u64) -> u8 {
    (#[verifier::truncate] ((w & 0xffu64) as u8))
}

proof fn lemma_pack_fields(index: u64, code: u64, aba: u64)
    requires
        index <= MAX_WORKERS,
        code < 4,
        aba < 256,
    ensures
        pack(index, code, aba) >> 10u64 == index,
        (pack(index, code, aba) >> 8u64) & 3u64 == code,
        pack(index, code, aba) & 0xffu64 == aba,
{
    assert(((index << 10u64) | (code << 8u64) | aba) >> 10u64 == index) by (bit_vector)
        requires
            index <= 0x3f_ffff_ffff_ffffu64,
            code < 4,
            aba < 256,
    ;
    assert((((index << 10u64) | (code << 8u64) | aba) >> 8u64) & 3u64 == code) by (bit_vector)
        requires
            code < 4,
            aba < 256,
    ;
    assert(((index << 10u64) | (code << 8u64) | aba) & 0xffu64 == aba) by (bit_vector)
        requires
            code < 4,
            aba < 256,
    ;
}

proof fn lemma_index_bound(w: u64)
    ensures
        w >> 10u64 <= MAX_WORKERS,
{
    assert(w >> 10u64 <= 0x3f_ffff_ffff_ffffu64) by (bit_vector);
}

impl IdleState {
    /// Packs this state with a worker index and an ABA tag into one word.
    pub fn encode(self, worker_index: u64, aba_tag: u8) -> (r: u64)
        requires
            worker_index <= MAX_WORKERS,
        ensures
            r == pack(worker_index, state_code(self), aba_tag as u64),
            word_index(r) == worker_index,
            word_state(r) == self,
            word_aba(r) == aba_tag,
    {
        let code: u64 = match self {
            IdleState::Ready => 0,
            IdleState::Waking => 1,
            IdleState::Notified => 2,
            IdleState::Shutdown => 3,
        };
        proof {
            lemma_pack_fields(worker_index, code, aba_tag as u64);
        }
        (worker_index << 10u64) | (code << 8u64) | (aba_tag as u64)
    }

    /// Splits a word into its state, worker index and ABA tag.
    pub fn decode(value: u64) -> (r: (IdleState, u64, u8))
        ensures
            r.0 == word_state(value),
            r.1 == word_index(value),
            r.2 == word_aba(value),
            r.1 <= MAX_WORKERS,
    {
        let code: u64 = (value >> 8u64) & 3u64;
        assert(code < 4) by (bit_vector)
            requires
                code == (value >> 8u64) & 3u64,
        ;
        let state = if code == 0 {
            IdleState::Ready
        } else if code == 1 {
            IdleState::Waking
        } else if code == 2 {
            IdleState::Notified
        } else {
            IdleState::Shutdown
        };
        proof {
            lemma_index_bound(value);
        }
        (state, value >> 10u64, (#[verifier::truncate] ((value & 0xffu64) as u8)))
    }
}

/// Decoding an encoded word gives back the state, index and tag that were packed.
pub proof fn lemma_decode_encode(s: IdleState, index: u64, aba: u8)
    requires
        index <= MAX_WORKERS,
    ensures
        word_state(pack(index, state_code(s), aba as u64)) == s,
        word_index(pack(index, state_code(s), aba as u64)) == index,
        word_aba(pack(index, state_code(s), aba as u64)) == aba,
{
    lemma_pack_fields(index, state_code(s), aba as u64);
}

/// The tag after `k` wrapping increments of `aba`.
pub open spec fn aba_after(aba: u8, k: nat) -> u8 {
    ((aba + k) % 256) as u8
}

/// One wrapping increment of a tag.
pub open spec fn next_aba(aba: u8) -> u8 {
    ((aba + 1) % 256) as u8
}

/// Each update bumps the ABA tag by one; successive values differ, and a tag only
/// comes back after 256 updates of the same word.
pub proof fn lemma_aba_bump(aba: u8, k: nat)
    requires
        1 <= k < 256,
    ensures
        next_aba(aba) != aba,
        aba_after(aba, 1) == next_aba(aba),
        aba_after(aba, k + 1) == next_aba(aba_after(aba, k)),
        aba_after(aba, k) != aba,
        aba_after(aba, 256) == aba,
{
}

} // verus!
