//! Low-density parity-check codes.
//!
//! Two families: the QC-LDPC codes of IEEE Std 802.11-2012, Annex F (24-column
//! base matrices, 1944 coded bits, rates 1/4 to 7/8), and the NR BG2 mother
//! code, one code that rate matching cuts to size for every speed level.
pub mod codes;
pub mod decoder;
pub mod encoder;
pub mod gf2;
pub mod lifted;
pub mod nr_bg2;
pub mod rate_match;

pub use codes::{CodeRate, LdpcCode};
pub use encoder::LdpcEncoder;

use decoder::{NrBg2Layers, TannerGraph};
use nr_bg2::{BaseGraph, NrBg2Encoder};
use vstd::prelude::*;

verus! {

/// An LDPC code with its encoder and the graph that a decoder works on.
#[derive(Debug)]
pub struct LdpcCodec {
    encoder: LdpcEncoder,
    graph: TannerGraph,
}

/// A codec is given by the rate of its code.
impl View for LdpcCodec {
    type V = CodeRate;

    closed spec fn view(&self) -> CodeRate {
        self.encoder@
    }
}

impl LdpcCodec {
    #[verifier::type_invariant]
    spec fn well_formed(self) -> bool {
        self.graph@ == self.encoder@
    }

    /// The codec of a rate.
    pub fn new(rate: CodeRate) -> (codec: Self)
        ensures
            codec@ == rate,
    {
        let code = LdpcCode::new(rate);
        let graph = TannerGraph::from_code(&code);
        LdpcCodec { encoder: LdpcEncoder::new(code), graph }
    }

    /// The code.
    pub fn code(&self) -> (code: &LdpcCode)
        ensures
            code@ == self@,
    {
        self.encoder.code()
    }

    /// The graph of the code.
    pub fn graph(&self) -> (graph: &TannerGraph)
        ensures
            graph@ == self@,
    {
        proof {
            use_type_invariant(self);
        }
        &self.graph
    }

    /// The codeword of a block of information bits.
    pub fn encode(&self, info_bits: &[u8]) -> (codeword: Vec<u8>)
        requires
            info_bits@.len() == encoder::info_len(self@),
        ensures
            encoder::encodes(self@, info_bits@, codeword@),
    {
        self.encoder.encode_block(info_bits)
    }
}

/// The NR BG2 mother code with its encoder and the layers that a decoder works
/// on.
#[derive(Debug)]
pub struct NrLdpc {
    encoder: NrBg2Encoder,
    layers: NrBg2Layers,
}

/// The code is given by its base graph.
impl View for NrLdpc {
    type V = Seq<codes::SparseEntry>;

    closed spec fn view(&self) -> Seq<codes::SparseEntry> {
        self.encoder@
    }
}

impl Clone for NrLdpc {
    fn clone(&self) -> (r: Self)
        ensures
            r@ == self@,
    {
        let encoder = self.encoder.clone();
        let layers = NrBg2Layers::new(encoder.graph());
        NrLdpc { encoder, layers }
    }
}

impl NrLdpc {
    /// Information bits of a block.
    pub const INFO_LEN: usize = 1760;

    /// Bits of a mother codeword.
    pub const MOTHER_LEN: usize = 8800;

    #[verifier::type_invariant]
    spec fn well_formed(self) -> bool {
        self.layers@ == self.encoder@
    }

    /// The code of a base graph, unless its core block is singular.
    pub fn new(graph: BaseGraph) -> (r: Option<Self>)
        ensures
            match r {
                Some(ldpc) => ldpc@ == graph@ && !nr_bg2::core_is_singular(graph@),
                None => nr_bg2::core_is_singular(graph@),
            },
    {
        let layers = NrBg2Layers::new(&graph);
        match NrBg2Encoder::new(graph) {
            Some(encoder) => Some(NrLdpc { encoder, layers }),
            None => None,
        }
    }

    /// The layers of the code.
    pub fn layers(&self) -> (layers: &NrBg2Layers)
        ensures
            layers@ == self@,
    {
        proof {
            use_type_invariant(self);
        }
        &self.layers
    }

    /// The mother codeword of a block of information bits.
    pub fn encode(&self, info: &[u8]) -> (mother: Vec<u8>)
        requires
            info@.len() == Self::INFO_LEN,
        ensures
            mother@.len() == Self::MOTHER_LEN,
            nr_bg2::encodes(self@, info@, mother@),
            forall|other: Seq<u8>| #[trigger]
                nr_bg2::encodes(self@, info@, other) ==> other == mother@,
    {
        self.encoder.encode_mother(info)
    }
}

/// Whether a place of the mother codeword holds an information bit beyond the
/// payload.
pub open spec fn is_padding(m: int, payload_bits: int) -> bool {
    m < rate_match::INFO_NONPUNCTURED_LEN && m + rate_match::PUNCTURED_LEN >= payload_bits
}

/// Put known values where the padding lies.
///
/// Padding is zero before scrambling, so what is sent for it is the keystream:
/// a zero bit is pinned to `pin`, a one to `neg_pin`. Payload bits, and those
/// in the prefix that is never sent, are left alone.
pub fn pin_known_pad<T: Copy>(
    dematched: &mut [T],
    payload_bits: usize,
    k_used: usize,
    pin: T,
    neg_pin: T,
)
    requires
        old(dematched)@.len() == NrLdpc::MOTHER_LEN,
        payload_bits <= k_used,
    ensures
        final(dematched)@.len() == old(dematched)@.len(),
        forall|m: int|
            0 <= m < old(dematched)@.len() ==> #[trigger] final(dematched)@[m] == (if is_padding(
                m,
                payload_bits as int,
            ) {
                if super::scrambler::keystream(m + rate_match::PUNCTURED_LEN) == 0 {
                    pin
                } else {
                    neg_pin
                }
            } else {
                old(dematched)@[m]
            }),
{
    if payload_bits >= NrLdpc::INFO_LEN {
        return;
    }
    let prbs: Vec<u8> = super::scrambler::prbs_bits(NrLdpc::INFO_LEN);
    let first: usize = if payload_bits > rate_match::PUNCTURED_LEN {
        payload_bits
    } else {
        rate_match::PUNCTURED_LEN
    };
    let mut overall: usize = first;
    while overall < NrLdpc::INFO_LEN
        invariant
            first <= overall <= NrLdpc::INFO_LEN,
            first >= rate_match::PUNCTURED_LEN,
            first >= payload_bits,
            first == payload_bits || first == rate_match::PUNCTURED_LEN,
            prbs@ == Seq::new(
                NrLdpc::INFO_LEN as nat,
                |i: int| super::scrambler::keystream(i),
            ),
            dematched@.len() == NrLdpc::MOTHER_LEN,
            old(dematched)@.len() == NrLdpc::MOTHER_LEN,
            forall|m: int|
                0 <= m < dematched@.len() ==> #[trigger] dematched@[m] == (if first <= m
                    + rate_match::PUNCTURED_LEN < overall {
                    if super::scrambler::keystream(m + rate_match::PUNCTURED_LEN) == 0 {
                        pin
                    } else {
                        neg_pin
                    }
                } else {
                    old(dematched)@[m]
                }),
        decreases NrLdpc::INFO_LEN - overall,
    {
        let value: T = if prbs[overall] == 0 {
            pin
        } else {
            neg_pin
        };
        dematched[overall - rate_match::PUNCTURED_LEN] = value;
        overall += 1;
    }
}

/// Pinned padding is what the encoder sends for it: the mother codeword of
/// scrambled information bits that end in zeros has the keystream there.
pub proof fn law_padding_is_sent_as_keystream(
    graph: Seq<codes::SparseEntry>,
    payload: Seq<u8>,
    mother: Seq<u8>,
    m: int,
)
    requires
        payload.len() <= NrLdpc::INFO_LEN,
        nr_bg2::encodes(
            graph,
            super::scrambler::scrambled(
                payload + Seq::new((NrLdpc::INFO_LEN - payload.len()) as nat, |k: int| 0u8),
            ),
            mother,
        ),
        0 <= m,
        is_padding(m, payload.len() as int),
    ensures
        mother[m] == super::scrambler::keystream(m + rate_match::PUNCTURED_LEN),
{
    let pad = (NrLdpc::INFO_LEN - payload.len()) as nat;
    let info = super::scrambler::scrambled(payload + Seq::new(pad, |k: int| 0u8));
    super::scrambler::law_padding_is_keystream(payload, pad, m + rate_match::PUNCTURED_LEN);
    assert(mother.take(1408)[m] == info.skip(352)[m]);
}

/// Which places of the mother codeword hold padding: those of the information
/// part, the first 1408, whose information bit, 352 places further on, lies
/// beyond the payload.
pub proof fn law_padding_places(m: int, payload_bits: int)
    ensures
        is_padding(m, payload_bits) == (m < 1408 && payload_bits <= m + 352),
{
}

} // verus!
