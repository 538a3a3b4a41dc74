//! What decompression means: a machine that reads a run of bits and writes
//! bytes, one small step at a time. A step is possible as soon as the bits it
//! needs are there, and what it does depends on nothing else. The decompressor
//! of this crate is specified as taking steps of this machine.

use vstd::prelude::*;
use vstd::arithmetic::power2::*;
use crate::bits::{BitSeq, bytes_moved};
use crate::codes::lengths_valid;
use crate::huffman::{decode, symbol_pull, Decoded};
use crate::code_length_reader::{meta_step, meta_iter, meta_left, meta_pull, MetaStep, lit_lengths, dist_lengths};
use crate::window::lz_copy;
use crate::tables::{length_base, length_extra_bits, dist_base, dist_extra_bits};
use crate::error::InflateError;

verus! {

/// Where in the format the machine is, with what it has read of the part it
/// is in.
pub enum Phase {
    /// Before the first byte of a zlib header.
    ZlibMethodAndFlags,
    /// Before the second byte of a zlib header; `cmf` was the first.
    ZlibFlags { cmf: u8 },
    /// Before the three bits that begin a block.
    BlockHeader,
    /// Before the length of a stored block.
    BlockUncompressed,
    /// At the start of a block with the fixed codes.
    BlockFixed,
    /// Before the number of literal/length code lengths of a dynamic block.
    BlockDynHlit,
    /// Before the number of distance code lengths.
    BlockDynHdist { hlit: u8 },
    /// Before the number of lengths of the code length code.
    BlockDynHclen { hlit: u8, hdist: u8 },
    /// Within the lengths of the code length code: `idx` have been read.
    BlockDynClenCodeLengths { hlit: u8, hdist: u8, hclen: u8, idx: u8, clens: Seq<u8> },
    /// Within the code lengths of the two codes: `result` has been read.
    BlockDynCodeLengths { clens: Seq<u8>, result: Seq<u8>, num_lit: nat, num_dist: nat },
    /// Before a literal/length symbol, with the code lengths in use.
    BlockDyn { lit: Seq<u8>, dist: Seq<u8> },
    /// Behind the length symbol `sym`, before its extra bits.
    BlockDynLength { lit: Seq<u8>, dist: Seq<u8>, sym: nat },
    /// Behind a length, before the distance symbol.
    BlockDynDistance { lit: Seq<u8>, dist: Seq<u8>, len: nat },
    /// Behind the distance symbol `sym`, before its extra bits.
    BlockDynDistanceExtra { lit: Seq<u8>, dist: Seq<u8>, len: nat, sym: nat },
    /// Within a copy: `len` bytes are still to be copied from `back` places
    /// back.
    LenDist { lit: Seq<u8>, dist: Seq<u8>, len: nat, back: nat },
    /// Behind the last block.
    CheckCRC,
    /// The input was found to be malformed.
    Failed(InflateError),
}

/// The state of the machine.
pub struct Model {
    pub phase: Phase,
    /// The input not yet read.
    pub bits: BitSeq,
    /// The output so far.
    pub history: Seq<u8>,
    /// Whether the block at hand is the last one.
    pub final_block: bool,
    /// How far back a copy may reach.
    pub window: nat,
}

/// The order in which the lengths of the code length code are sent.
pub open spec fn clen_order() -> Seq<int> {
    seq![16int, 17, 18, 0, 8, 7, 9, 6, 10, 5, 11, 4, 12, 3, 13, 2, 14, 1, 15]
}

/// The code lengths of the fixed literal/length code.
pub open spec fn fixed_lit_lengths() -> Seq<u8> {
    Seq::new(
        288,
        |i: int|
            if i < 144 {
                8u8
            } else if i < 256 {
                9u8
            } else if i < 280 {
                7u8
            } else {
                8u8
            },
    )
}

/// The code lengths of the fixed distance code.
pub open spec fn fixed_dist_lengths() -> Seq<u8> {
    Seq::new(32, |i: int| 5u8)
}

impl Model {
    /// The machine has come to an end: nothing that follows is looked at.
    pub open spec fn halted(self) -> bool {
        self.phase is CheckCRC || self.phase is Failed
    }

    /// The machine stopped on malformed input.
    pub open spec fn fail(self, e: InflateError) -> Model {
        Model { phase: Phase::Failed(e), bits: BitSeq::empty(), ..self }
    }

    /// The machine in another phase, with other input left.
    pub open spec fn go(self, phase: Phase, bits: BitSeq) -> Model {
        Model { phase, bits, ..self }
    }

    /// The machine with more input behind what it has. A machine that has
    /// come to an end takes none.
    pub open spec fn feed(self, data: Seq<u8>) -> Model {
        if self.halted() {
            self
        } else {
            Model { bits: self.bits.append(data), ..self }
        }
    }

    /// The steps of the two bytes of a zlib header. The first byte names the
    /// method, which must be 8, and the window size, `2^(8+info)` with `info`
    /// at most 7. The two bytes as one number are a multiple of 31, and bit 5
    /// of the second, the request for a preset dictionary, is not set.
    pub open spec fn step_zlib(self) -> Option<Model> {
        let b = self.bits.first(8);
        let rest = self.bits.skip(8);
        if self.bits.len < 8 {
            None
        } else {
            match self.phase {
                Phase::ZlibMethodAndFlags => {
                    let method = b % 16;
                    let info = b / 16;
                    if method != 8 {
                        Some(self.fail(InflateError::UnknownMethod(method as u8)))
                    } else if info > 7 {
                        Some(self.fail(InflateError::InvalidWindowInfo(info as u8)))
                    } else {
                        Some(
                            Model {
                                phase: Phase::ZlibFlags { cmf: b as u8 },
                                bits: rest,
                                window: pow2(8 + info),
                                ..self
                            },
                        )
                    }
                },
                Phase::ZlibFlags { cmf } => {
                    if (cmf as nat * 256 + b) % 31 != 0 {
                        Some(self.fail(InflateError::InvalidChecksum(cmf, b as u8)))
                    } else if (b / 32) % 2 == 1 {
                        Some(self.fail(InflateError::PresetDictionary))
                    } else {
                        Some(self.go(Phase::BlockHeader, rest))
                    }
                },
                _ => None,
            }
        }
    }

    /// The step at the start of a block: one bit that says whether the block
    /// is the last, and two for its kind. A stored block begins at the next
    /// byte boundary.
    pub open spec fn step_block_header(self) -> Option<Model> {
        let h = self.bits.first(3);
        let rest = self.bits.skip(3);
        let last = h % 2 == 1;
        let kind = h / 2;
        if self.bits.len < 3 {
            None
        } else if self.final_block {
            Some(self.fail(InflateError::DataAfterFinalBlock))
        } else if kind == 0 {
            Some(
                Model {
                    phase: Phase::BlockUncompressed,
                    bits: rest.skip(rest.len % 8),
                    final_block: last,
                    ..self
                },
            )
        } else if kind == 1 {
            Some(Model { phase: Phase::BlockFixed, bits: rest, final_block: last, ..self })
        } else if kind == 2 {
            Some(Model { phase: Phase::BlockDynHlit, bits: rest, final_block: last, ..self })
        } else {
            Some(
                Model { final_block: last, ..self }.fail(
                    InflateError::UnimplementedBlockType(kind as u8),
                ),
            )
        }
    }

    /// The tables of a block are in place: symbols follow, unless the lengths
    /// were those of no code.
    pub open spec fn start_symbols(self, lit: Seq<u8>, dist: Seq<u8>, bits: BitSeq) -> Model {
        if lengths_valid(lit, 15) && lengths_valid(dist, 15) {
            self.go(Phase::BlockDyn { lit, dist }, bits)
        } else {
            self.fail(InflateError::BadCodeLengths)
        }
    }

    /// The steps through the header of a dynamic block: three counts, then
    /// the lengths of the code length code, three bits each.
    pub open spec fn step_dyn_header(self) -> Option<Model> {
        match self.phase {
            Phase::BlockDynHlit => {
                if self.bits.len < 5 {
                    None
                } else {
                    Some(
                        self.go(
                            Phase::BlockDynHdist { hlit: (self.bits.first(5) + 1) as u8 },
                            self.bits.skip(5),
                        ),
                    )
                }
            },
            Phase::BlockDynHdist { hlit } => {
                if self.bits.len < 5 {
                    None
                } else {
                    Some(
                        self.go(
                            Phase::BlockDynHclen { hlit, hdist: (self.bits.first(5) + 1) as u8 },
                            self.bits.skip(5),
                        ),
                    )
                }
            },
            Phase::BlockDynHclen { hlit, hdist } => {
                if self.bits.len < 4 {
                    None
                } else {
                    Some(
                        self.go(
                            Phase::BlockDynClenCodeLengths {
                                hlit,
                                hdist,
                                hclen: (self.bits.first(4) + 4) as u8,
                                idx: 0,
                                clens: Seq::new(19, |i: int| 0u8),
                            },
                            self.bits.skip(4),
                        ),
                    )
                }
            },
            Phase::BlockDynClenCodeLengths { hlit, hdist, hclen, idx, clens } => {
                let v = self.bits.first(3) as u8;
                let clens2 = clens.update(clen_order()[idx as int], v);
                if self.bits.len < 3 {
                    None
                } else if idx + 1 < hclen {
                    Some(
                        self.go(
                            Phase::BlockDynClenCodeLengths {
                                hlit,
                                hdist,
                                hclen,
                                idx: (idx + 1) as u8,
                                clens: clens2,
                            },
                            self.bits.skip(3),
                        ),
                    )
                } else if lengths_valid(clens2, 7) {
                    Some(
                        self.go(
                            Phase::BlockDynCodeLengths {
                                clens: clens2,
                                result: Seq::empty(),
                                num_lit: hlit as nat + 256,
                                num_dist: hdist as nat,
                            },
                            self.bits.skip(3),
                        ),
                    )
                } else {
                    Some(self.fail(InflateError::BadCodeLengths))
                }
            },
            _ => None,
        }
    }

    /// The step that reads one symbol of the code length alphabet. With the
    /// last length the tables are built.
    pub open spec fn step_code_lengths(self) -> Option<Model> {
        match self.phase {
            Phase::BlockDynCodeLengths { clens, result, num_lit, num_dist } => {
                match meta_step(clens, num_lit + num_dist, result, self.bits) {
                    MetaStep::Suspend => None,
                    MetaStep::Fail(e) => Some(self.fail(e)),
                    MetaStep::Emit { result: r2, used } => {
                        if r2.len() >= num_lit + num_dist {
                            Some(
                                self.start_symbols(
                                    lit_lengths(r2, num_lit),
                                    dist_lengths(r2, num_lit),
                                    self.bits.skip(used),
                                ),
                            )
                        } else {
                            Some(
                                self.go(
                                    Phase::BlockDynCodeLengths { clens, result: r2, num_lit, num_dist },
                                    self.bits.skip(used),
                                ),
                            )
                        }
                    },
                }
            },
            _ => None,
        }
    }

    /// The step that reads a literal/length symbol: a literal is written, 256
    /// ends the block, 257 to 285 begin a copy.
    pub open spec fn step_symbol(self, lit: Seq<u8>, dist: Seq<u8>) -> Option<Model> {
        match decode(lit, self.bits) {
            Decoded::NeedMore => None,
            Decoded::Invalid => Some(self.fail(InflateError::BadCode)),
            Decoded::Symbol { sym, len } => {
                let rest = self.bits.skip(len);
                if sym < 256 {
                    Some(
                        Model {
                            bits: rest,
                            history: self.history.push(sym as u8),
                            ..self
                        },
                    )
                } else if sym == 256 {
                    if self.final_block {
                        Some(self.go(Phase::CheckCRC, BitSeq::empty()))
                    } else {
                        Some(self.go(Phase::BlockHeader, rest))
                    }
                } else if sym <= 285 {
                    Some(self.go(Phase::BlockDynLength { lit, dist, sym: sym as nat }, rest))
                } else {
                    Some(self.fail(InflateError::BadLengthCode(sym as u16)))
                }
            },
        }
    }

    /// The steps from a length symbol to the copy: the extra bits of the
    /// length, the distance symbol, the extra bits of the distance. A
    /// distance must not reach back beyond the window or the first byte of
    /// output.
    pub open spec fn step_len_dist(self) -> Option<Model> {
        match self.phase {
            Phase::BlockDynLength { lit, dist, sym } => {
                let eb = length_extra_bits(sym);
                if self.bits.len < eb {
                    None
                } else {
                    Some(
                        self.go(
                            Phase::BlockDynDistance {
                                lit,
                                dist,
                                len: length_base(sym) + self.bits.first(eb),
                            },
                            self.bits.skip(eb),
                        ),
                    )
                }
            },
            Phase::BlockDynDistance { lit, dist, len } => {
                match decode(dist, self.bits) {
                    Decoded::NeedMore => None,
                    Decoded::Invalid => Some(self.fail(InflateError::BadCode)),
                    Decoded::Symbol { sym, len: l } => {
                        if sym >= 30 {
                            Some(self.fail(InflateError::BadDistanceCode(sym as u16)))
                        } else {
                            Some(
                                self.go(
                                    Phase::BlockDynDistanceExtra { lit, dist, len, sym: sym as nat },
                                    self.bits.skip(l),
                                ),
                            )
                        }
                    },
                }
            },
            Phase::BlockDynDistanceExtra { lit, dist, len, sym } => {
                let eb = dist_extra_bits(sym);
                let back = dist_base(sym) + self.bits.first(eb);
                if self.bits.len < eb {
                    None
                } else if back > self.history.len() || back > self.window {
                    Some(self.fail(InflateError::DistanceTooFar(back as u16)))
                } else {
                    Some(self.go(Phase::LenDist { lit, dist, len, back }, self.bits.skip(eb)))
                }
            },
            _ => None,
        }
    }

    /// The step that copies one byte.
    pub open spec fn step_copy(self) -> Option<Model> {
        match self.phase {
            Phase::LenDist { lit, dist, len, back } => {
                let history = self.history.push(self.history[self.history.len() - back]);
                if len <= 1 {
                    Some(Model { phase: Phase::BlockDyn { lit, dist }, history, ..self })
                } else {
                    Some(
                        Model {
                            phase: Phase::LenDist { lit, dist, len: (len - 1) as nat, back },
                            history,
                            ..self
                        },
                    )
                }
            },
            _ => None,
        }
    }

    /// The next step of the machine, if the input at hand allows one.
    pub open spec fn step(self) -> Option<Model> {
        match self.phase {
            Phase::ZlibMethodAndFlags => self.step_zlib(),
            Phase::ZlibFlags { .. } => self.step_zlib(),
            Phase::BlockHeader => self.step_block_header(),
            Phase::BlockUncompressed => {
                if self.bits.len < 16 {
                    None
                } else {
                    Some(self.fail(InflateError::StoredBlock(self.bits.first(16) as u16)))
                }
            },
            Phase::BlockFixed => Some(
                self.start_symbols(fixed_lit_lengths(), fixed_dist_lengths(), self.bits),
            ),
            Phase::BlockDynHlit => self.step_dyn_header(),
            Phase::BlockDynHdist { .. } => self.step_dyn_header(),
            Phase::BlockDynHclen { .. } => self.step_dyn_header(),
            Phase::BlockDynClenCodeLengths { .. } => self.step_dyn_header(),
            Phase::BlockDynCodeLengths { .. } => self.step_code_lengths(),
            Phase::BlockDyn { lit, dist } => self.step_symbol(lit, dist),
            Phase::BlockDynLength { .. } => self.step_len_dist(),
            Phase::BlockDynDistance { .. } => self.step_len_dist(),
            Phase::BlockDynDistanceExtra { .. } => self.step_len_dist(),
            Phase::LenDist { .. } => self.step_copy(),
            Phase::CheckCRC => None,
            Phase::Failed(_) => None,
        }
    }

    /// The machine after at most `n` steps: it stops early where no step is
    /// possible.
    pub open spec fn run(self, n: nat) -> Model
        decreases n,
    {
        if n == 0 {
            self
        } else {
            match self.step() {
                Some(next) => next.run((n - 1) as nat),
                None => self,
            }
        }
    }

    /// Some number of steps leads from the machine to `other`.
    #[verifier::opaque]
    pub open spec fn reaches(self, other: Model) -> bool {
        exists|n: nat| self.run(n) == other
    }

    /// What the machine has written is still there, at the front of the
    /// output, in every state that it reaches.
    pub proof fn lemma_reaches_history(self, other: Model)
        requires
            self.reaches(other),
        ensures
            self.history.len() <= other.history.len(),
            other.history.subrange(0, self.history.len() as int) == self.history,
    {
        reveal(Model::reaches);
        let n = choose|n: nat| self.run(n) == other;
        self.lemma_run_history(n);
    }

    /// What is there after `n` steps is reached.
    pub proof fn lemma_reaches_run(self, n: nat)
        ensures
            self.reaches(self.run(n)),
    {
        reveal(Model::reaches);
    }

    /// No step is possible: the machine has come to an end or waits for input.
    #[verifier::opaque]
    pub open spec fn stuck(self) -> bool {
        self.step() is None
    }

    /// What `stuck` means.
    pub proof fn lemma_stuck(self)
        ensures
            self.stuck() == (self.step() is None),
    {
        reveal(Model::stuck);
    }
}


impl Model {
    /// A number that falls with every step that leaves the input as it is:
    /// such steps cannot follow each other without end.
    pub open spec fn rank(self) -> nat {
        match self.phase {
            Phase::BlockFixed => 1,
            Phase::BlockDynLength { .. } => 1,
            Phase::BlockDynDistanceExtra { len, .. } => len + 2,
            Phase::LenDist { len, .. } => len + 1,
            _ => 0,
        }
    }

    /// `self` comes before `other` in the order that every step goes down in:
    /// it has less input left, or as much and a lower rank.
    pub open spec fn below(self, other: Model) -> bool {
        self.bits.len < other.bits.len || (self.bits.len == other.bits.len && self.rank()
            < other.rank())
    }

    /// What holds of every state that the machine gets into: the input is a
    /// proper run of bits, the code lengths at hand are those of codes, and
    /// the values read so far are in range.
    pub open spec fn wf(self) -> bool {
        self.bits.wf() && self.phase_wf()
    }

    /// The part of `wf` that does not speak of the input.
    pub open spec fn phase_wf(self) -> bool {
        match self.phase {
            Phase::BlockDynHdist { hlit } => 1 <= hlit <= 32,
            Phase::BlockDynHclen { hlit, hdist } => 1 <= hlit <= 32 && 1 <= hdist <= 32,
            Phase::BlockDynClenCodeLengths { hlit, hdist, hclen, idx, clens } => {
                &&& 1 <= hlit <= 32
                &&& 1 <= hdist <= 32
                &&& 4 <= hclen <= 19
                &&& idx < hclen
                &&& clens.len() == 19
                &&& forall|i: int| 0 <= i < 19 ==> clens[i] <= 7
            },
            Phase::BlockDynCodeLengths { clens, result, num_lit, num_dist } => {
                &&& clens.len() == 19
                &&& lengths_valid(clens, 7)
                &&& 257 <= num_lit <= 288
                &&& 1 <= num_dist <= 32
                &&& result.len() < num_lit + num_dist
            },
            Phase::BlockDyn { lit, dist } => self.codes_wf(lit, dist),
            Phase::BlockDynLength { lit, dist, sym } => self.codes_wf(lit, dist) && 257 <= sym <= 285,
            Phase::BlockDynDistance { lit, dist, len } => self.codes_wf(lit, dist) && 3 <= len <= 258,
            Phase::BlockDynDistanceExtra { lit, dist, len, sym } => {
                &&& self.codes_wf(lit, dist)
                &&& 3 <= len <= 258
                &&& sym <= 29
            },
            Phase::LenDist { lit, dist, len, back } => {
                &&& self.codes_wf(lit, dist)
                &&& 1 <= len <= 258
                &&& 1 <= back <= self.history.len()
                &&& back <= self.window
            },
            _ => true,
        }
    }

    /// The lengths are those of two codes in the sizes that the tables take.
    pub open spec fn codes_wf(self, lit: Seq<u8>, dist: Seq<u8>) -> bool {
        &&& lengths_valid(lit, 15)
        &&& lengths_valid(dist, 15)
        &&& lit.len() < 2048
        &&& dist.len() < 2048
    }

    /// Every step takes input away or lowers the rank, so that the machine
    /// cannot run for ever on the input it has.
    pub proof fn lemma_step_below(self)
        requires
            self.wf(),
            self.step() is Some,
        ensures
            self.step().unwrap().below(self),
    {
        match self.phase {
            Phase::BlockDynCodeLengths { clens, result, num_lit, num_dist } => {
                crate::code_length_reader::lemma_meta_step_used(clens, num_lit + num_dist, result, self.bits);
            },
            Phase::BlockDyn { lit, dist } => {
                crate::huffman::lemma_decode_len(lit, self.bits);
            },
            Phase::BlockDynDistance { lit, dist, len } => {
                crate::huffman::lemma_decode_len(dist, self.bits);
            },
            _ => {},
        }
    }

    proof fn lemma_wf_zlib(self)
        requires
            self.wf(),
            self.step_zlib() is Some,
        ensures
            self.step_zlib().unwrap().wf(),
    {
        crate::bits::lemma_empty_wf();
        crate::bits::lemma_skip_wf(self.bits, 8);
    }

    proof fn lemma_wf_block_header(self)
        requires
            self.wf(),
            self.step_block_header() is Some,
        ensures
            self.step_block_header().unwrap().wf(),
    {
        crate::bits::lemma_empty_wf();
        let rest = self.bits.skip(3);
        crate::bits::lemma_skip_wf(self.bits, 3);
        vstd::arithmetic::div_mod::lemma_mod_decreases(rest.len, 8);
        crate::bits::lemma_skip_wf(rest, rest.len % 8);
    }

    proof fn lemma_wf_dyn_header(self)
        requires
            self.wf(),
            self.step_dyn_header() is Some,
        ensures
            self.step_dyn_header().unwrap().wf(),
    {
        lemma2_to64();
        crate::bits::lemma_empty_wf();
        match self.phase {
            Phase::BlockDynHlit => {
                crate::bits::lemma_skip_wf(self.bits, 5);
                vstd::arithmetic::div_mod::lemma_mod_bound(self.bits.value as int, 32);
            },
            Phase::BlockDynHdist { .. } => {
                crate::bits::lemma_skip_wf(self.bits, 5);
                vstd::arithmetic::div_mod::lemma_mod_bound(self.bits.value as int, 32);
            },
            Phase::BlockDynHclen { .. } => {
                crate::bits::lemma_skip_wf(self.bits, 4);
                vstd::arithmetic::div_mod::lemma_mod_bound(self.bits.value as int, 16);
            },
            Phase::BlockDynClenCodeLengths { hlit, hdist, hclen, idx, clens } => {
                crate::bits::lemma_skip_wf(self.bits, 3);
                vstd::arithmetic::div_mod::lemma_mod_bound(self.bits.value as int, 8);
                assert(0 <= clen_order()[idx as int] < 19);
            },
            _ => {},
        }
    }

    proof fn lemma_wf_start_symbols(self, lit: Seq<u8>, dist: Seq<u8>, bits: BitSeq)
        requires
            bits.wf(),
            lit.len() < 2048,
            dist.len() < 2048,
        ensures
            self.start_symbols(lit, dist, bits).wf(),
    {
        crate::bits::lemma_empty_wf();
    }

    proof fn lemma_wf_code_lengths(self)
        requires
            self.wf(),
            self.step_code_lengths() is Some,
        ensures
            self.step_code_lengths().unwrap().wf(),
    {
        crate::bits::lemma_empty_wf();
        match self.phase {
            Phase::BlockDynCodeLengths { clens, result, num_lit, num_dist } => {
                crate::code_length_reader::lemma_meta_step_used(clens, num_lit + num_dist, result, self.bits);
                match meta_step(clens, num_lit + num_dist, result, self.bits) {
                    MetaStep::Emit { result: r2, used } => {
                        crate::bits::lemma_skip_wf(self.bits, used);
                        if r2.len() >= num_lit + num_dist {
                            self.lemma_wf_start_symbols(
                                lit_lengths(r2, num_lit),
                                dist_lengths(r2, num_lit),
                                self.bits.skip(used),
                            );
                        }
                    },
                    _ => {},
                }
            },
            _ => {},
        }
    }

    proof fn lemma_wf_symbol(self, lit: Seq<u8>, dist: Seq<u8>)
        requires
            self.wf(),
            self.phase == (Phase::BlockDyn { lit, dist }),
            self.step_symbol(lit, dist) is Some,
        ensures
            self.step_symbol(lit, dist).unwrap().wf(),
    {
        crate::bits::lemma_empty_wf();
        crate::huffman::lemma_decode_len(lit, self.bits);
        match decode(lit, self.bits) {
            Decoded::Symbol { sym, len } => {
                crate::bits::lemma_skip_wf(self.bits, len);
            },
            _ => {},
        }
    }

    proof fn lemma_wf_len_dist(self)
        requires
            self.wf(),
            self.step_len_dist() is Some,
        ensures
            self.step_len_dist().unwrap().wf(),
    {
        crate::bits::lemma_empty_wf();
        match self.phase {
            Phase::BlockDynLength { lit, dist, sym } => {
                let eb = length_extra_bits(sym);
                crate::tables::lemma_length_range(sym);
                crate::bits::lemma_skip_wf(self.bits, eb);
                vstd::arithmetic::power2::lemma_pow2_pos(eb);
                vstd::arithmetic::div_mod::lemma_mod_bound(self.bits.value as int, pow2(eb) as int);
            },
            Phase::BlockDynDistance { lit, dist, len } => {
                crate::huffman::lemma_decode_len(dist, self.bits);
                match decode(dist, self.bits) {
                    Decoded::Symbol { sym, len: l } => {
                        crate::bits::lemma_skip_wf(self.bits, l);
                    },
                    _ => {},
                }
            },
            Phase::BlockDynDistanceExtra { lit, dist, len, sym } => {
                let eb = dist_extra_bits(sym);
                crate::tables::lemma_dist_range(sym);
                crate::bits::lemma_skip_wf(self.bits, eb);
            },
            _ => {},
        }
    }

    /// A step leads from a state that is in order to one that is.
    pub proof fn lemma_step_wf(self)
        requires
            self.wf(),
            self.step() is Some,
        ensures
            self.step().unwrap().wf(),
    {
        crate::bits::lemma_empty_wf();
        match self.phase {
            Phase::ZlibMethodAndFlags => self.lemma_wf_zlib(),
            Phase::ZlibFlags { .. } => self.lemma_wf_zlib(),
            Phase::BlockHeader => self.lemma_wf_block_header(),
            Phase::BlockUncompressed => {},
            Phase::BlockFixed => {
                self.lemma_wf_start_symbols(fixed_lit_lengths(), fixed_dist_lengths(), self.bits);
            },
            Phase::BlockDynHlit => self.lemma_wf_dyn_header(),
            Phase::BlockDynHdist { .. } => self.lemma_wf_dyn_header(),
            Phase::BlockDynHclen { .. } => self.lemma_wf_dyn_header(),
            Phase::BlockDynClenCodeLengths { .. } => self.lemma_wf_dyn_header(),
            Phase::BlockDynCodeLengths { .. } => self.lemma_wf_code_lengths(),
            Phase::BlockDyn { lit, dist } => self.lemma_wf_symbol(lit, dist),
            Phase::BlockDynLength { .. } => self.lemma_wf_len_dist(),
            Phase::BlockDynDistance { .. } => self.lemma_wf_len_dist(),
            Phase::BlockDynDistanceExtra { .. } => self.lemma_wf_len_dist(),
            Phase::LenDist { .. } => {},
            Phase::CheckCRC => {},
            Phase::Failed(_) => {},
        }
    }

    /// Any number of steps leads from a state that is in order to one that is,
    /// and to one that comes below it in the order of the steps, if a step
    /// was taken at all.
    pub proof fn lemma_run_wf(self, n: nat)
        requires
            self.wf(),
        ensures
            self.run(n).wf(),
            n >= 1 && self.step() is Some ==> self.run(n).below(self),
            self.step() is None ==> self.run(n) == self,
        decreases n,
    {
        if n > 0 {
            match self.step() {
                Some(next) => {
                    self.lemma_step_wf();
                    self.lemma_step_below();
                    next.lemma_run_wf((n - 1) as nat);
                    if n >= 2 && next.step() is None {
                        assert(next.run((n - 1) as nat) == next);
                    }
                },
                None => {},
            }
        }
    }

    /// Taking `n` steps and then one more is taking `n + 1`.
    pub proof fn lemma_run_step(self, n: nat)
        ensures
            self.run(n + 1) == self.run(n).run(1),
        decreases n,
    {
        reveal_with_fuel(Model::run, 2);
        if n > 0 {
            match self.step() {
                Some(next) => {
                    next.lemma_run_step((n - 1) as nat);
                },
                None => {},
            }
        }
    }

    /// Taking `a` steps and then `b` more is taking `a + b`.
    pub proof fn lemma_run_add(self, a: nat, b: nat)
        ensures
            self.run(a).run(b) == self.run(a + b),
        decreases b,
    {
        if b > 0 {
            self.lemma_run_add(a, (b - 1) as nat);
            self.lemma_run_step(a + (b - 1) as nat);
            self.run(a).lemma_run_step((b - 1) as nat);
            assert(a + (b - 1) as nat + 1 == a + b);
            assert((b - 1) as nat + 1 == b);
        }
    }

    /// Where a step is possible after `n` steps, `n + 1` steps lead to its
    /// result.
    pub proof fn lemma_run_then(self, n: nat)
        requires
            self.run(n).step() is Some,
        ensures
            self.run(n + 1) == self.run(n).step().unwrap(),
    {
        self.lemma_run_step(n);
        reveal_with_fuel(Model::run, 2);
    }

    /// What can be reached from what can be reached, can be reached.
    pub proof fn lemma_reaches_trans(self, mid: Model, end: Model)
        requires
            self.reaches(mid),
            mid.reaches(end),
        ensures
            self.reaches(end),
    {
        reveal(Model::reaches);
        let a = choose|n: nat| self.run(n) == mid;
        let b = choose|n: nat| mid.run(n) == end;
        self.lemma_run_add(a, b);
    }

    /// Every state reaches itself.
    pub proof fn lemma_reaches_self(self)
        ensures
            self.reaches(self),
    {
        assert(self.run(0) == self);
        self.lemma_reaches_run(0);
    }

    /// The result of a step is reached.
    pub proof fn lemma_reaches_step(self)
        requires
            self.step() is Some,
        ensures
            self.reaches(self.step().unwrap()),
    {
        reveal_with_fuel(Model::run, 2);
        assert(self.run(1) == self.step().unwrap());
        self.lemma_reaches_run(1);
    }

    /// Steps never take output back: what was written stays at the front of
    /// the output.
    pub proof fn lemma_step_history(self)
        requires
            self.step() is Some,
        ensures
            self.history.len() <= self.step().unwrap().history.len(),
            self.step().unwrap().history.subrange(0, self.history.len() as int) == self.history,
    {
        let next = self.step().unwrap();
        assert(next.history.subrange(0, self.history.len() as int) =~= self.history);
    }

    /// As `lemma_step_history`, for any number of steps.
    pub proof fn lemma_run_history(self, n: nat)
        ensures
            self.history.len() <= self.run(n).history.len(),
            self.run(n).history.subrange(0, self.history.len() as int) == self.history,
        decreases n,
    {
        if n == 0 {
            assert(self.history.subrange(0, self.history.len() as int) =~= self.history);
        } else {
            match self.step() {
                Some(next) => {
                    self.lemma_step_history();
                    next.lemma_run_history((n - 1) as nat);
                    let end = next.run((n - 1) as nat);
                    assert(end.history.subrange(0, self.history.len() as int) =~= end.history.subrange(
                        0,
                        next.history.len() as int,
                    ).subrange(0, self.history.len() as int));
                },
                None => {
                    assert(self.history.subrange(0, self.history.len() as int) =~= self.history);
                },
            }
        }
    }

    /// A copy of `k` bytes is `k` steps of the machine.
    pub proof fn lemma_copy_run(self, k: nat)
        requires
            self.wf(),
            self.phase is LenDist,
            k <= self.phase->LenDist_len,
        ensures
            ({
                let lit = self.phase->LenDist_lit;
                let dist = self.phase->LenDist_dist;
                let len = self.phase->LenDist_len;
                let back = self.phase->LenDist_back;
                self.run(k) == Model {
                    history: lz_copy(self.history, back, k),
                    phase: if k == len {
                        Phase::BlockDyn { lit, dist }
                    } else {
                        Phase::LenDist { lit, dist, len: (len - k) as nat, back }
                    },
                    ..self
                }
            }),
        decreases k,
    {
        let lit = self.phase->LenDist_lit;
        let dist = self.phase->LenDist_dist;
        let len = self.phase->LenDist_len;
        let back = self.phase->LenDist_back;
        if k > 0 {
            let h1 = self.history.push(self.history[self.history.len() - back]);
            let next = if len <= 1 {
                Model { phase: Phase::BlockDyn { lit, dist }, history: h1, ..self }
            } else {
                Model { phase: Phase::LenDist { lit, dist, len: (len - 1) as nat, back }, history: h1, ..self }
            };
            assert(self.step_copy() == Some(next));
            assert(self.step() == Some(next));
            assert(self.run(k) == next.run((k - 1) as nat));
            assert(lz_copy(self.history, back, k) == lz_copy(h1, back, (k - 1) as nat));
            if len > 1 {
                assert(next.wf());
                next.lemma_copy_run((k - 1) as nat);
            } else {
                assert(next.run(0) == next);
            }
        }
    }

    /// Reading code lengths is taking steps of the machine: one for each
    /// symbol of the code length alphabet. The step of the last symbol builds
    /// the tables.
    pub proof fn lemma_code_lengths_run(self, k: nat, room: int, left: nat) -> (n: nat)
        requires
            self.wf(),
            self.phase is BlockDynCodeLengths,
        ensures
            self.end_of(true, room, n) == self.run(n),
            self.left_after(true, room, n, left) == meta_left(
                self.phase->BlockDynCodeLengths_clens,
                self.phase->BlockDynCodeLengths_num_lit + self.phase->BlockDynCodeLengths_num_dist,
                self.phase->BlockDynCodeLengths_result,
                self.bits,
                k,
                left,
            ),
            ({
                let clens = self.phase->BlockDynCodeLengths_clens;
                let result = self.phase->BlockDynCodeLengths_result;
                let num_lit = self.phase->BlockDynCodeLengths_num_lit;
                let num_dist = self.phase->BlockDynCodeLengths_num_dist;
                let total = num_lit + num_dist;
                let end = meta_iter(clens, total, result, self.bits, k);
                &&& end.0.len() >= result.len()
                &&& n >= 1 ==> self.step() is Some
                &&& end.0.len() < total ==> (n >= 1 <==> end.0.len() > result.len()) && self.run(n)
                    == self.go(
                    Phase::BlockDynCodeLengths { clens, result: end.0, num_lit, num_dist },
                    end.1,
                )
                &&& end.0.len() >= total ==> n >= 1 && self.run(n) == self.start_symbols(
                    lit_lengths(end.0, num_lit),
                    dist_lengths(end.0, num_lit),
                    end.1,
                )
            }),
        decreases k,
    {
        let clens = self.phase->BlockDynCodeLengths_clens;
        let result = self.phase->BlockDynCodeLengths_result;
        let num_lit = self.phase->BlockDynCodeLengths_num_lit;
        let num_dist = self.phase->BlockDynCodeLengths_num_dist;
        let total = num_lit + num_dist;
        if k == 0 {
            0
        } else {
            self.lemma_goes_on(true, room);
            crate::code_length_reader::lemma_meta_step_used(clens, num_lit + num_dist, result, self.bits);
            match meta_step(clens, num_lit + num_dist, result, self.bits) {
                MetaStep::Emit { result: r2, used } => {
                    let next = self.step().unwrap();
                    self.lemma_step_wf();
                    let left1 = (left - self.pulls(left)) as nat;
                    assert(self.pulls(left) == meta_pull(
                        clens,
                        self.bits,
                        (self.bits.len - 8 * left) as nat,
                        left,
                    )) by {
                        reveal(Model::pulls);
                    }
                    if r2.len() >= total {
                        reveal_with_fuel(Model::run, 2);
                        reveal_with_fuel(meta_iter, 2);
                        reveal_with_fuel(meta_left, 2);
                        self.lemma_end_one(true, room);
                        self.lemma_left_one(true, room, left);
                        1
                    } else {
                        let n1 = next.lemma_code_lengths_run((k - 1) as nat, room, left1);
                        self.lemma_unfold(true, room, n1 + 1, left);
                        n1 + 1
                    }
                },
                _ => 0,
            }
        }
    }

    /// The machine is within the body of a block: at the start of a block
    /// with the fixed codes, at a symbol or its extra bits, or within a copy.
    pub open spec fn in_body(self) -> bool {
        self.phase is BlockFixed || self.phase is BlockDyn || self.phase is BlockDynLength
            || self.phase is BlockDynDistance || self.phase is BlockDynDistanceExtra
            || self.phase is LenDist
    }

    /// The next step writes a byte: it copies one, or it reads a literal.
    pub open spec fn writes(self) -> bool {
        match self.phase {
            Phase::LenDist { .. } => true,
            Phase::BlockDyn { lit, dist } => decode(lit, self.bits) matches Decoded::Symbol {
                sym,
                len,
            } && sym < 256,
            _ => false,
        }
    }

    /// A call that reads code lengths (`lengths`) or the body of a block goes
    /// on from this state: the machine is still in that part, a step is
    /// possible, and if the step writes, the window has room.
    #[verifier::opaque]
    pub open spec fn goes_on(self, lengths: bool, room: int) -> bool {
        &&& self.step() is Some
        &&& if lengths {
            self.phase is BlockDynCodeLengths
        } else {
            self.in_body() && !(self.writes() && room <= 0)
        }
    }

    /// Where such a call has come to after at most `fuel` steps, with `room`
    /// bytes of room in the window at the start.
    pub open spec fn end_of(self, lengths: bool, room: int, fuel: nat) -> Model
        decreases fuel,
    {
        if fuel == 0 || !self.goes_on(lengths, room) {
            self
        } else {
            let next = self.step().unwrap();
            next.end_of(lengths, room - (next.history.len() - self.history.len()), (fuel - 1) as nat)
        }
    }

    /// Where a call that started at `self` with `room` bytes of room ends:
    /// at the first state from which it does not go on.
    pub open spec fn call_ends(self, lengths: bool, room: int, end: Model) -> bool {
        exists|fuel: nat| #[trigger]
            self.end_of(lengths, room, fuel) == end && !end.goes_on(
                lengths,
                room - (end.history.len() - self.history.len()),
            )
    }

    /// Going on for `a` steps and then for `b` more is going on for `a + b`.
    pub proof fn lemma_end_add(self, lengths: bool, room: int, a: nat, b: nat)
        ensures
            ({
                let mid = self.end_of(lengths, room, a);
                self.end_of(lengths, room, a + b) == mid.end_of(
                    lengths,
                    room - (mid.history.len() - self.history.len()),
                    b,
                )
            }),
        decreases a,
    {
        if a == 0 {
            assert(self.end_of(lengths, room, 0) == self);
        } else if !self.goes_on(lengths, room) {
            assert(self.end_of(lengths, room, a) == self);
            assert(self.end_of(lengths, room, a + b) == self);
            assert(self.end_of(lengths, room, b) == self);
        } else {
            let next = self.step().unwrap();
            let r1 = room - (next.history.len() - self.history.len());
            next.lemma_end_add(lengths, r1, (a - 1) as nat, b);
            assert((a + b - 1) as nat == (a - 1) as nat + b);
            assert(self.end_of(lengths, room, a) == next.end_of(lengths, r1, (a - 1) as nat));
            assert(self.end_of(lengths, room, a + b) == next.end_of(lengths, r1, (a + b - 1) as nat));
        }
    }

    /// One step from which the call goes on.
    pub proof fn lemma_end_one(self, lengths: bool, room: int)
        requires
            self.goes_on(lengths, room),
        ensures
            self.end_of(lengths, room, 1) == self.step().unwrap(),
    {
        let next = self.step().unwrap();
        assert(next.end_of(lengths, room - (next.history.len() - self.history.len()), 0) == next);
    }

    /// What `goes_on` means.
    pub proof fn lemma_goes_on(self, lengths: bool, room: int)
        ensures
            self.goes_on(lengths, room) == (self.step() is Some && if lengths {
                self.phase is BlockDynCodeLengths
            } else {
                self.in_body() && !(self.writes() && room <= 0)
            }),
    {
        reveal(Model::goes_on);
    }

    /// The end of a call is reached by steps of the machine.
    pub proof fn lemma_end_reaches(self, lengths: bool, room: int, fuel: nat)
        ensures
            self.reaches(self.end_of(lengths, room, fuel)),
        decreases fuel,
    {
        if fuel == 0 || !self.goes_on(lengths, room) {
            self.lemma_reaches_self();
        } else {
            self.lemma_goes_on(lengths, room);
            let next = self.step().unwrap();
            let r1 = room - (next.history.len() - self.history.len());
            next.lemma_end_reaches(lengths, r1, (fuel - 1) as nat);
            self.lemma_reaches_step();
            self.lemma_reaches_trans(next, next.end_of(lengths, r1, (fuel - 1) as nat));
        }
    }

    /// A call ends in one state only.
    pub proof fn lemma_call_ends_unique(self, lengths: bool, room: int, x: Model, y: Model)
        requires
            self.call_ends(lengths, room, x),
            self.call_ends(lengths, room, y),
        ensures
            x == y,
    {
        let a = choose|fuel: nat| #[trigger]
            self.end_of(lengths, room, fuel) == x && !x.goes_on(
                lengths,
                room - (x.history.len() - self.history.len()),
            );
        let b = choose|fuel: nat| #[trigger]
            self.end_of(lengths, room, fuel) == y && !y.goes_on(
                lengths,
                room - (y.history.len() - self.history.len()),
            );
        if a <= b {
            self.lemma_end_add(lengths, room, a, (b - a) as nat);
            assert(a + (b - a) as nat == b);
            assert(x.end_of(lengths, room - (x.history.len() - self.history.len()), (b - a) as nat) == x);
        } else {
            self.lemma_end_add(lengths, room, b, (a - b) as nat);
            assert(b + (a - b) as nat == a);
            assert(y.end_of(lengths, room - (y.history.len() - self.history.len()), (a - b) as nat) == y);
        }
    }

    /// A copy goes on for as many bytes as there is room for.
    pub proof fn lemma_copy_end(self, room: int, k: nat)
        requires
            self.wf(),
            self.phase is LenDist,
            k <= self.phase->LenDist_len,
            k <= room,
        ensures
            self.end_of(false, room, k) == self.run(k),
        decreases k,
    {
        if k > 0 {
            self.lemma_copy_run(1);
            self.lemma_copy_run(k);
            reveal_with_fuel(Model::run, 2);
            let next = self.step().unwrap();
            assert(next == self.run(1));
            self.lemma_goes_on(false, room);
            assert(self.goes_on(false, room));
            assert(self.run(k) == next.run((k - 1) as nat));
            assert(self.end_of(false, room, k) == next.end_of(false, room - 1, (k - 1) as nat));
            self.lemma_step_wf();
            if k > 1 {
                next.lemma_copy_end(room - 1, (k - 1) as nat);
            }
        }
    }

    /// How many bits the step of a phase asks for that reads one field of a
    /// header.
    pub open spec fn asks(self) -> nat {
        match self.phase {
            Phase::ZlibMethodAndFlags => 8,
            Phase::ZlibFlags { .. } => 8,
            Phase::BlockHeader => 3,
            Phase::BlockUncompressed => 16,
            Phase::BlockDynHlit => 5,
            Phase::BlockDynHdist { .. } => 5,
            Phase::BlockDynHclen { .. } => 4,
            Phase::BlockDynClenCodeLengths { .. } => 3,
            _ => 0,
        }
    }

    /// A call that goes on from `self` to `mid` ends where the call from
    /// `mid` ends.
    #[verifier::rlimit(60)]
    pub proof fn lemma_call_after_step(self, lengths: bool, room: int, mid: Model, end: Model)
        requires
            self.goes_on(lengths, room),
            self.step() == Some(mid),
            mid.call_ends(lengths, room - (mid.history.len() - self.history.len()), end),
        ensures
            self.call_ends(lengths, room, end),
    {
        let r1 = room - (mid.history.len() - self.history.len());
        let fuel = choose|fuel: nat| #[trigger]
            mid.end_of(lengths, r1, fuel) == end && !end.goes_on(
                lengths,
                r1 - (end.history.len() - mid.history.len()),
            );
        self.lemma_unfold(lengths, room, fuel + 1, 0);
        assert(self.end_of(lengths, room, fuel + 1) == end);
    }

    /// How many bytes a step that reads code lengths or the body of a block
    /// moves into the register of the cursor, where `left` bytes of the
    /// input that the machine has are still outside it. The step asks for
    /// the bits of a symbol or for extra bits; a copy asks for none.
    #[verifier::opaque]
    pub open spec fn pulls(self, left: nat) -> nat {
        let pending = (self.bits.len - 8 * left) as nat;
        match self.phase {
            Phase::BlockDyn { lit, .. } => symbol_pull(
                pending,
                left,
                decode(lit, self.bits)->Symbol_len,
            ),
            Phase::BlockDynLength { sym, .. } => bytes_moved(pending, length_extra_bits(sym), left),
            Phase::BlockDynDistance { dist, .. } => symbol_pull(
                pending,
                left,
                decode(dist, self.bits)->Symbol_len,
            ),
            Phase::BlockDynDistanceExtra { sym, .. } => bytes_moved(
                pending,
                dist_extra_bits(sym),
                left,
            ),
            Phase::BlockDynCodeLengths { clens, .. } => meta_pull(clens, self.bits, pending, left),
            _ => 0,
        }
    }

    /// How many of `left` bytes are still outside the register where a call
    /// has come to after at most `fuel` steps.
    pub open spec fn left_after(self, lengths: bool, room: int, fuel: nat, left: nat) -> nat
        decreases fuel,
    {
        if fuel == 0 || !self.goes_on(lengths, room) {
            left
        } else {
            let next = self.step().unwrap();
            next.left_after(
                lengths,
                room - (next.history.len() - self.history.len()),
                (fuel - 1) as nat,
                (left - self.pulls(left)) as nat,
            )
        }
    }

    /// How many bytes a call that reads the body of a block has moved in at
    /// its end for a literal that it then did not write, as the window was
    /// full.
    pub open spec fn held_back(self, lengths: bool, room: int, left: nat) -> nat {
        if !lengths && self.phase is BlockDyn && self.writes() && room <= 0 {
            self.pulls(left)
        } else {
            0
        }
    }

    /// A call that started at `self`, with `room` bytes of room and `left0`
    /// bytes outside the register, ends at `end` with `left1` bytes outside.
    pub open spec fn call_leaves(self, lengths: bool, room: int, end: Model, left0: nat, left1: nat) -> bool {
        exists|fuel: nat| #[trigger]
            self.end_of(lengths, room, fuel) == end && !end.goes_on(
                lengths,
                room - (end.history.len() - self.history.len()),
            ) && left1 == self.left_after(lengths, room, fuel, left0) - end.held_back(
                lengths,
                room - (end.history.len() - self.history.len()),
                self.left_after(lengths, room, fuel, left0),
            )
    }

    /// The bytes left outside after `a` steps and then `b` more.
    pub proof fn lemma_left_add(self, lengths: bool, room: int, a: nat, b: nat, left: nat)
        ensures
            ({
                let mid = self.end_of(lengths, room, a);
                self.left_after(lengths, room, a + b, left) == mid.left_after(
                    lengths,
                    room - (mid.history.len() - self.history.len()),
                    b,
                    self.left_after(lengths, room, a, left),
                )
            }),
        decreases a,
    {
        if a == 0 {
            assert(self.end_of(lengths, room, 0) == self);
            assert(self.left_after(lengths, room, 0, left) == left);
        } else if !self.goes_on(lengths, room) {
            assert(self.end_of(lengths, room, a) == self);
            assert(self.left_after(lengths, room, a, left) == left);
            assert(self.left_after(lengths, room, a + b, left) == left);
            assert(self.left_after(lengths, room, b, left) == left);
        } else {
            let next = self.step().unwrap();
            let r1 = room - (next.history.len() - self.history.len());
            let l1 = (left - self.pulls(left)) as nat;
            next.lemma_left_add(lengths, r1, (a - 1) as nat, b, l1);
            assert((a + b - 1) as nat == (a - 1) as nat + b);
            self.lemma_unfold(lengths, room, a, left);
            self.lemma_unfold(lengths, room, a + b, left);
        }
    }

    /// What `end_of` and `left_after` are where the call goes on.
    pub proof fn lemma_unfold(self, lengths: bool, room: int, fuel: nat, left: nat)
        requires
            fuel > 0,
            self.goes_on(lengths, room),
        ensures
            ({
                let next = self.step().unwrap();
                let r1 = room - (next.history.len() - self.history.len());
                &&& self.end_of(lengths, room, fuel) == next.end_of(lengths, r1, (fuel - 1) as nat)
                &&& self.left_after(lengths, room, fuel, left) == next.left_after(
                    lengths,
                    r1,
                    (fuel - 1) as nat,
                    (left - self.pulls(left)) as nat,
                )
            }),
    {
    }

    /// The bytes left outside after one step from which the call goes on.
    pub proof fn lemma_left_one(self, lengths: bool, room: int, left: nat)
        requires
            self.goes_on(lengths, room),
        ensures
            self.left_after(lengths, room, 1, left) == (left - self.pulls(left)) as nat,
    {
        let next = self.step().unwrap();
        assert(next.left_after(
            lengths,
            room - (next.history.len() - self.history.len()),
            0,
            (left - self.pulls(left)) as nat,
        ) == (left - self.pulls(left)) as nat);
    }

    /// A copy moves no byte in.
    pub proof fn lemma_copy_left(self, room: int, k: nat, left: nat)
        requires
            self.wf(),
            self.phase is LenDist,
            k <= self.phase->LenDist_len,
            k <= room,
        ensures
            self.left_after(false, room, k, left) == left,
        decreases k,
    {
        if k > 0 {
            self.lemma_copy_run(1);
            reveal_with_fuel(Model::run, 2);
            let next = self.step().unwrap();
            assert(next == self.run(1));
            self.lemma_goes_on(false, room);
            assert(self.pulls(left) == 0) by {
                reveal(Model::pulls);
            }
            self.lemma_unfold(false, room, k, left);
            self.lemma_step_wf();
            if k > 1 {
                next.lemma_copy_left(room - 1, (k - 1) as nat, left);
            }
        }
    }

    /// A call that goes on from `self` to `mid` by a step that moves no byte
    /// in leaves what the call from `mid` leaves.
    #[verifier::rlimit(60)]
    pub proof fn lemma_leaves_after_step(
        self,
        lengths: bool,
        room: int,
        mid: Model,
        end: Model,
        left0: nat,
        left1: nat,
    )
        requires
            self.goes_on(lengths, room),
            self.step() == Some(mid),
            self.pulls(left0) == 0,
            mid.call_leaves(lengths, room - (mid.history.len() - self.history.len()), end, left0, left1),
        ensures
            self.call_leaves(lengths, room, end, left0, left1),
    {
        let r1 = room - (mid.history.len() - self.history.len());
        let fuel = choose|fuel: nat| #[trigger]
            mid.end_of(lengths, r1, fuel) == end && !end.goes_on(
                lengths,
                r1 - (end.history.len() - mid.history.len()),
            ) && left1 == mid.left_after(lengths, r1, fuel, left0) - end.held_back(
                lengths,
                r1 - (end.history.len() - mid.history.len()),
                mid.left_after(lengths, r1, fuel, left0),
            );
        self.lemma_unfold(lengths, room, fuel + 1, left0);
        assert(self.end_of(lengths, room, fuel + 1) == end);
        assert(end.history.len() - self.history.len() == (end.history.len() - mid.history.len()) + (
        mid.history.len() - self.history.len()));
    }

    /// A call leaves as many bytes outside the register in one way only.
    pub proof fn lemma_call_leaves_unique(
        self,
        lengths: bool,
        room: int,
        end: Model,
        left0: nat,
        x: nat,
        y: nat,
    )
        requires
            self.call_leaves(lengths, room, end, left0, x),
            self.call_leaves(lengths, room, end, left0, y),
        ensures
            x == y,
    {
        let r1 = room - (end.history.len() - self.history.len());
        let a = choose|fuel: nat| #[trigger]
            self.end_of(lengths, room, fuel) == end && !end.goes_on(lengths, r1) && x
                == self.left_after(lengths, room, fuel, left0) - end.held_back(
                lengths,
                r1,
                self.left_after(lengths, room, fuel, left0),
            );
        let b = choose|fuel: nat| #[trigger]
            self.end_of(lengths, room, fuel) == end && !end.goes_on(lengths, r1) && y
                == self.left_after(lengths, room, fuel, left0) - end.held_back(
                lengths,
                r1,
                self.left_after(lengths, room, fuel, left0),
            );
        if a <= b {
            self.lemma_left_add(lengths, room, a, (b - a) as nat, left0);
            assert(a + (b - a) as nat == b);
            assert(end.left_after(
                lengths,
                r1,
                (b - a) as nat,
                self.left_after(lengths, room, a, left0),
            ) == self.left_after(lengths, room, a, left0));
        } else {
            self.lemma_left_add(lengths, room, b, (a - b) as nat, left0);
            assert(b + (a - b) as nat == a);
            assert(end.left_after(
                lengths,
                r1,
                (a - b) as nat,
                self.left_after(lengths, room, b, left0),
            ) == self.left_after(lengths, room, b, left0));
        }
    }

    /// A call that does not go on ends where it is.
    pub proof fn lemma_call_stays(self, lengths: bool, room: int)
        requires
            !self.goes_on(lengths, room),
        ensures
            self.call_ends(lengths, room, self),
    {
        assert(self.end_of(lengths, room, 0) == self);
    }
}

} // verus!
