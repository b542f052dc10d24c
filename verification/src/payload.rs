//! Payload geometry of the transforms that a benchmark compares with.

use vstd::prelude::*;

use crate::span::{is_span, lemma_span_monotone, span};

verus! {

/// The most points of a payload over 16-bit elements.
pub const PAYLOAD_POINTS_MAX: usize = 65_536;

/// A power of two is not zero.
proof fn lemma_span_positive(n: nat)
    requires
        is_span(n),
    ensures
        n > 0,
{
    let k = choose|k: nat| #[trigger] span(k) == n;
    lemma_span_monotone(0, k);
}

/// A flat payload of rows of whole 64-byte groups.
#[derive(Clone)]
pub struct LeopardBuffer {
    bytes: Vec<u8>,
    points: usize,
    row_len: usize,
}

impl LeopardBuffer {
    /// The payload bytes.
    pub closed spec fn payload(&self) -> Seq<u8> {
        self.bytes@
    }

    /// The number of rows.
    pub closed spec fn rows(&self) -> usize {
        self.points
    }

    /// The bytes of a row.
    pub closed spec fn row_bytes(&self) -> usize {
        self.row_len
    }

    /// Retain one payload of `points` rows of whole 64-byte groups.
    pub fn new(bytes: Vec<u8>, points: usize) -> (buffer: Self)
        requires
            is_span(points as nat),
            points <= PAYLOAD_POINTS_MAX,
            bytes@.len() % points as nat == 0,
            bytes@.len() / points as nat > 0,
            (bytes@.len() / points as nat) % 64 == 0,
        ensures
            buffer.payload() == bytes@,
            buffer.rows() == points,
            buffer.row_bytes() == bytes@.len() / points as nat,
    {
        proof {
            lemma_span_positive(points as nat);
        }
        let row_len: usize = bytes.len() / points;
        LeopardBuffer { bytes, points, row_len }
    }

    /// The payload bytes, in point-major row order.
    pub fn as_bytes(&self) -> (bytes: &[u8])
        ensures
            bytes@ == self.payload(),
    {
        self.bytes.as_slice()
    }

    /// The payload bytes, given back.
    pub fn into_bytes(self) -> (bytes: Vec<u8>)
        ensures
            bytes@ == self.payload(),
    {
        self.bytes
    }

    /// The number of rows.
    pub fn points(&self) -> (points: usize)
        ensures
            points == self.rows(),
    {
        self.points
    }

    /// The bytes of a row.
    pub fn row_len(&self) -> (row_len: usize)
        ensures
            row_len == self.row_bytes(),
    {
        self.row_len
    }
}

/// A flat point-major payload of 16-bit elements.
#[derive(Clone)]
pub struct NanorsBuffer {
    bytes: Vec<u8>,
    points: usize,
    row_len: usize,
}

impl NanorsBuffer {
    /// The payload bytes.
    pub closed spec fn payload(&self) -> Seq<u8> {
        self.bytes@
    }

    /// The number of rows.
    pub closed spec fn rows(&self) -> usize {
        self.points
    }

    /// The bytes of a row.
    pub closed spec fn row_bytes(&self) -> usize {
        self.row_len
    }

    /// Retain one payload of `points` rows of whole 16-bit elements.
    pub fn new(bytes: Vec<u8>, points: usize) -> (buffer: Self)
        requires
            is_span(points as nat),
            points <= PAYLOAD_POINTS_MAX,
            bytes@.len() % points as nat == 0,
            bytes@.len() / points as nat > 0,
            (bytes@.len() / points as nat) % 2 == 0,
            bytes@.len() / points as nat <= u32::MAX,
        ensures
            buffer.payload() == bytes@,
            buffer.rows() == points,
            buffer.row_bytes() == bytes@.len() / points as nat,
    {
        proof {
            lemma_span_positive(points as nat);
        }
        let row_len: usize = bytes.len() / points;
        NanorsBuffer { bytes, points, row_len }
    }

    /// The payload bytes, in point-major row order.
    pub fn as_bytes(&self) -> (bytes: &[u8])
        ensures
            bytes@ == self.payload(),
    {
        self.bytes.as_slice()
    }

    /// The payload bytes, given back.
    pub fn into_bytes(self) -> (bytes: Vec<u8>)
        ensures
            bytes@ == self.payload(),
    {
        self.bytes
    }

    /// The number of rows.
    pub fn points(&self) -> (points: usize)
        ensures
            points == self.rows(),
    {
        self.points
    }

    /// The bytes of a row.
    pub fn row_len(&self) -> (row_len: usize)
        ensures
            row_len == self.row_bytes(),
    {
        self.row_len
    }
}

/// The shape of a block transform: `points` blocks of `lanes` elements each.
#[derive(Clone, Copy, Debug)]
pub struct FastEccNttBuffer {
    points: usize,
    lanes: usize,
}

impl FastEccNttBuffer {
    /// The number of blocks.
    pub closed spec fn blocks(self) -> usize {
        self.points
    }

    /// The elements of a block.
    pub closed spec fn width(self) -> usize {
        self.lanes
    }

    /// A shape of `points` blocks of `lanes` elements.
    pub fn shaped(points: usize, lanes: usize) -> (buffer: Self)
        ensures
            buffer.blocks() == points,
            buffer.width() == lanes,
    {
        FastEccNttBuffer { points, lanes }
    }

    /// The number of transform points.
    pub fn points(&self) -> (points: usize)
        ensures
            points == self.blocks(),
    {
        self.points
    }

    /// The independent lanes packed into each block.
    pub fn lanes(&self) -> (lanes: usize)
        ensures
            lanes == self.width(),
    {
        self.lanes
    }
}

} // verus!
