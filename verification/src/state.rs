//! The state that the decompressor keeps between calls, and what it stands
//! for in terms of the machine of `model`.

use vstd::prelude::*;
use crate::bits::{BitSeq, BitState};
use crate::huffman::DynHuffman16;
use crate::code_length_reader::CodeLengthReader;
use crate::window::WindowBuffer;
use crate::model::{Model, Phase};
use crate::error::InflateError;

verus! {

/// What is to be read next from the bits of a block.
pub enum BitsNext {
    BlockHeader,
    BlockUncompressed,
    BlockFixed,
    BlockDynHlit,
    /// With the number of literal/length code lengths, less 256.
    BlockDynHdist(u8),
    /// With that and the number of distance code lengths.
    BlockDynHclen(u8, u8),
    /// With those, the number of lengths of the code length code, how many of
    /// them have been read, and the lengths.
    BlockDynClenCodeLengths(u8, u8, u8, u8, [u8; 19]),
    BlockDynCodeLengths(CodeLengthReader),
    /// A literal/length symbol, with the decoders of the block.
    BlockDyn(DynHuffman16, DynHuffman16),
    /// The extra bits of a length symbol; the number is the symbol less 256.
    BlockDynLength(DynHuffman16, DynHuffman16, u8),
    /// The distance symbol that follows a length.
    BlockDynDistance(DynHuffman16, DynHuffman16, u16),
    /// The extra bits of a distance symbol, behind the length.
    BlockDynDistanceExtra(DynHuffman16, DynHuffman16, u16, u8),
}

/// Where the decompressor is.
pub enum State {
    ZlibMethodAndFlags,
    /// With the first byte of the header.
    ZlibFlags(u8),
    /// Within the blocks, with the pending bits.
    Bits(BitsNext, BitState),
    /// Within a copy that the end of the window broke off: what follows the
    /// copy, how many bytes are left, and the distance.
    LenDist((BitsNext, BitState), u16, u16),
    CheckCRC,
    /// Stopped by malformed input.
    Failed(InflateError),
}

impl BitsNext {
    /// The decoders and the reader are in order.
    pub open spec fn wf(&self) -> bool {
        match self {
            BitsNext::BlockDynCodeLengths(reader) => reader.wf(),
            BitsNext::BlockDyn(lit, dist) => lit.wf() && dist.wf(),
            BitsNext::BlockDynLength(lit, dist, _) => lit.wf() && dist.wf(),
            BitsNext::BlockDynDistance(lit, dist, _) => lit.wf() && dist.wf(),
            BitsNext::BlockDynDistanceExtra(lit, dist, _, _) => lit.wf() && dist.wf(),
            _ => true,
        }
    }

    /// The phase of the machine that this stands for.
    pub open spec fn phase(&self) -> Phase {
        match self {
            BitsNext::BlockHeader => Phase::BlockHeader,
            BitsNext::BlockUncompressed => Phase::BlockUncompressed,
            BitsNext::BlockFixed => Phase::BlockFixed,
            BitsNext::BlockDynHlit => Phase::BlockDynHlit,
            BitsNext::BlockDynHdist(hlit) => Phase::BlockDynHdist { hlit: *hlit },
            BitsNext::BlockDynHclen(hlit, hdist) => Phase::BlockDynHclen { hlit: *hlit, hdist: *hdist },
            BitsNext::BlockDynClenCodeLengths(hlit, hdist, hclen, idx, clens) => {
                Phase::BlockDynClenCodeLengths {
                    hlit: *hlit,
                    hdist: *hdist,
                    hclen: *hclen,
                    idx: *idx,
                    clens: clens@,
                }
            },
            BitsNext::BlockDynCodeLengths(reader) => Phase::BlockDynCodeLengths {
                clens: reader.clens(),
                result: reader.result(),
                num_lit: reader.num_lit(),
                num_dist: reader.num_dist(),
            },
            BitsNext::BlockDyn(lit, dist) => Phase::BlockDyn { lit: lit.lens(), dist: dist.lens() },
            BitsNext::BlockDynLength(lit, dist, code) => Phase::BlockDynLength {
                lit: lit.lens(),
                dist: dist.lens(),
                sym: 256 + *code as nat,
            },
            BitsNext::BlockDynDistance(lit, dist, len) => Phase::BlockDynDistance {
                lit: lit.lens(),
                dist: dist.lens(),
                len: *len as nat,
            },
            BitsNext::BlockDynDistanceExtra(lit, dist, len, code) => Phase::BlockDynDistanceExtra {
                lit: lit.lens(),
                dist: dist.lens(),
                len: *len as nat,
                sym: *code as nat,
            },
        }
    }
}

impl State {
    /// The decoders, the reader and the pending bits are in order.
    pub open spec fn wf(&self) -> bool {
        match self {
            State::Bits(next, bits) => next.wf() && bits.wf(),
            State::LenDist((next, bits), _, _) => next.wf() && bits.wf() && next is BlockDyn,
            _ => true,
        }
    }

    /// The state is one behind the zlib header.
    pub open spec fn in_blocks(&self) -> bool {
        !(self is ZlibMethodAndFlags) && !(self is ZlibFlags)
    }

    /// The state goes with the window: its parts are in order, the machine
    /// that it stands for is, and the window is there once the header has
    /// said how large it is.
    /// The state is that before the first symbol of a block, with `bits`
    /// kept.
    pub open spec fn starts_symbols(&self, bits: BitState) -> bool {
        match self {
            State::Bits(BitsNext::BlockDyn(_, _), b) => *b == bits,
            _ => false,
        }
    }

    pub open spec fn fits(&self, window: &WindowBuffer, final_block: bool) -> bool {
        &&& window.wf()
        &&& self.wf()
        &&& self.model(window, final_block).phase_wf()
        &&& self is ZlibMethodAndFlags ==> window.capacity() == 0 && window.history() == Seq::<
            u8,
        >::empty()
        &&& !self.in_blocks() ==> !final_block
        &&& !(self is ZlibMethodAndFlags || self is Failed) ==> window.capacity() > 0
    }

    /// The phase of the machine that this stands for.
    pub open spec fn phase(&self) -> Phase {
        match self {
            State::ZlibMethodAndFlags => Phase::ZlibMethodAndFlags,
            State::ZlibFlags(cmf) => Phase::ZlibFlags { cmf: *cmf },
            State::Bits(next, _) => next.phase(),
            State::LenDist((next, _), len, back) => match next {
                BitsNext::BlockDyn(lit, dist) => Phase::LenDist {
                    lit: lit.lens(),
                    dist: dist.lens(),
                    len: *len as nat,
                    back: *back as nat,
                },
                _ => Phase::CheckCRC,
            },
            State::CheckCRC => Phase::CheckCRC,
            State::Failed(e) => Phase::Failed(*e),
        }
    }

    /// The bits that are kept from one call to the next.
    pub open spec fn bits(&self) -> BitSeq {
        match self {
            State::Bits(_, bits) => bits.bits(),
            State::LenDist((_, bits), _, _) => bits.bits(),
            _ => BitSeq::empty(),
        }
    }

    /// The machine that the state stands for, with a given window.
    pub open spec fn model(&self, window: &WindowBuffer, final_block: bool) -> Model {
        Model {
            phase: self.phase(),
            bits: self.bits(),
            history: window.history(),
            final_block,
            window: window.capacity(),
        }
    }

    /// The machine that the state stands for together with input that has
    /// not been taken in yet.
    pub open spec fn snapshot(&self, rest: Seq<u8>, window: &WindowBuffer, final_block: bool) -> Model {
        self.model(window, final_block).feed(rest)
    }
}

/// The machine in a given phase, with a given window.
pub open spec fn machine(phase: Phase, bits: BitSeq, window: &WindowBuffer, final_block: bool) -> Model {
    Model { phase, bits, history: window.history(), final_block, window: window.capacity() }
}

} // verus!
