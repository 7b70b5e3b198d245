//! Network parameters and their binary file format.

use vstd::prelude::*;
use super::{HIDDEN_SIZE, L1_SIZE, L2_SIZE, MAX_L1_SIZE, MAX_L2_SIZE};

verus! {

pub const NET_VERSION: u32 = 2;

pub const HEADER_SIZE: usize = 32;

pub const NET_FILE_SIZE: usize = 51_584_832;

pub const LEGACY_INPUT_SIZE: usize = 24576;

pub const LEGACY_NET_FILE_SIZE: usize = 50_470_720;

/// Files may be padded to a multiple of this.
pub const PAD_ALIGN: usize = 64;

/// The error for a file that is not a network of this engine.
pub const NET_ERROR: &'static str = "layer-stacked NNUE header or dimensions do not match this engine";

/// Layer-stacked NNUE parameters.
///
/// Binary layout after the 32-byte versioned header, which records the widths of
/// the dense layers:
/// - feature-transformer weights: INPUT_SIZE × HIDDEN_SIZE i16
/// - feature-transformer biases: HIDDEN_SIZE i16
/// - l1 weights: OUTPUT_BUCKETS × l1 width × PAIR_INPUT_SIZE i8
/// - l1 biases: OUTPUT_BUCKETS × l1 width i32
/// - l2 weights: OUTPUT_BUCKETS × l2 width × l1 width i8
/// - l2 biases: OUTPUT_BUCKETS × l2 width i32
/// - l3 weights: OUTPUT_BUCKETS × l2 width i8
/// - l3 biases: OUTPUT_BUCKETS i32
pub struct NnueNetwork {
    pub l1_size: usize,
    pub l2_size: usize,
    pub ft_weights: Vec<[i16; HIDDEN_SIZE]>,
    pub ft_biases: [i16; HIDDEN_SIZE],
    pub l1_weights: Vec<i8>,
    pub l1_biases: Vec<i32>,
    pub l2_weights: Vec<i8>,
    pub l2_biases: Vec<i32>,
    pub l3_weights: Vec<i8>,
    pub l3_biases: Vec<i32>,
}

/// A little-endian 16-bit number, in two's complement.
pub open spec fn le_i16(d: Seq<u8>, o: int) -> int {
    let v = d[o] + 256 * d[o + 1];
    if v >= 32768 { v - 65536 } else { v }
}

/// A little-endian unsigned 32-bit number.
pub open spec fn le_u32(d: Seq<u8>, o: int) -> int {
    d[o] + 256 * d[o + 1] + 65536 * d[o + 2] + 16777216 * d[o + 3]
}

/// A little-endian 32-bit number, in two's complement.
pub open spec fn le_i32(d: Seq<u8>, o: int) -> int {
    let v = le_u32(d, o);
    if v >= 2147483648 { v - 4294967296 } else { v }
}

/// A byte in two's complement.
pub open spec fn byte_i8(d: Seq<u8>, o: int) -> int {
    if d[o] >= 128 { d[o] - 256 } else { d[o] as int }
}

/// The magic number of the format: ESPNNUE2.
pub open spec fn has_magic(d: Seq<u8>) -> bool {
    d.len() >= 32 && d[0] == 69 && d[1] == 83 && d[2] == 80 && d[3] == 78 && d[4] == 78 && d[5] == 85 && d[6] == 69
        && d[7] == 50
}

/// The version-1 format without state features.
pub open spec fn is_legacy(d: Seq<u8>) -> bool {
    le_u32(d, 8) == 1 && le_u32(d, 12) == 24576
}

/// The current format.
pub open spec fn is_current(d: Seq<u8>) -> bool {
    le_u32(d, 8) == 2 && le_u32(d, 12) == 25120
}

/// The width of the first dense layer that the header records.
pub open spec fn l1_width(d: Seq<u8>) -> int {
    le_u32(d, 24)
}

/// The width of the second dense layer that the header records.
pub open spec fn l2_width(d: Seq<u8>) -> int {
    le_u32(d, 28)
}

/// The bytes of all parameters behind the feature-transformer weights.
pub open spec fn tail_size(l1: int, l2: int) -> int {
    2048 + 8192 * l1 + 32 * l1 + 8 * (l2 * l1) + 32 * l2 + 8 * l2 + 32
}

/// The bytes are a network file: magic, version and dimensions agree, the dense
/// widths are in their range, and the length is what they give, up to padding.
pub open spec fn is_network_file(d: Seq<u8>) -> bool {
    &&& has_magic(d)
    &&& le_u32(d, 16) == 1024
    &&& le_u32(d, 20) == 8
    &&& 1 <= l1_width(d) <= 64
    &&& 1 <= l2_width(d) <= 64
    &&& is_legacy(d) || is_current(d)
    &&& ({
        let size = tail_offset(is_legacy(d)) + tail_size(l1_width(d), l2_width(d));
        size <= d.len() < size + 64
    })
}

/// Where the feature-transformer row of an input starts; `None` for a state
/// feature of the version-1 format, whose rows are zero.
pub open spec fn row_offset(legacy: bool, row: int) -> Option<int> {
    if !legacy {
        Some(32 + row * 2048)
    } else if row % 785 < 768 {
        Some(32 + (row / 785 * 768 + row % 785) * 2048)
    } else {
        None
    }
}

/// Where the parameters after the feature-transformer weights start.
pub open spec fn tail_offset(legacy: bool) -> int {
    if legacy { 50_331_680 } else { 51_445_792 }
}

/// Numbers are the signed bytes from an offset on.
pub open spec fn bytes_at(v: Seq<i8>, d: Seq<u8>, o: int) -> bool {
    forall|i: int| 0 <= i < v.len() ==> #[trigger] v[i] == byte_i8(d, o + i)
}

/// Numbers are the 32-bit words from an offset on.
pub open spec fn words_at(v: Seq<i32>, d: Seq<u8>, o: int) -> bool {
    forall|i: int| 0 <= i < v.len() ==> #[trigger] v[i] == le_i32(d, o + 4 * i)
}

impl NnueNetwork {
    /// Some weight of the last layer is not zero.
    pub open spec fn trained(&self) -> bool {
        exists|i: int| 0 <= i < self.l3_weights@.len() && #[trigger] self.l3_weights@[i] != 0
    }

    /// The lists have the lengths that the dimensions give.
    pub open spec fn ok(&self) -> bool {
        &&& 1 <= self.l1_size <= 64
        &&& 1 <= self.l2_size <= 64
        &&& self.ft_weights@.len() == 25120
        &&& self.l1_weights@.len() == 8192 * self.l1_size
        &&& self.l1_biases@.len() == 8 * self.l1_size
        &&& self.l2_weights@.len() == 8 * (self.l2_size * self.l1_size)
        &&& self.l2_biases@.len() == 8 * self.l2_size
        &&& self.l3_weights@.len() == 8 * self.l2_size
        &&& self.l3_biases@.len() == 8
    }

    /// The parameters are those in the bytes of a network file.
    pub open spec fn is_read_from(&self, d: Seq<u8>) -> bool {
        let legacy = is_legacy(d);
        let o = tail_offset(legacy);
        let l1 = self.l1_size as int;
        let l2 = self.l2_size as int;
        let b1 = o + 2048 + 8192 * l1;
        let w2 = b1 + 32 * l1;
        let b2 = w2 + 8 * (l2 * l1);
        let w3 = b2 + 32 * l2;
        &&& self.ok()
        &&& l1 == l1_width(d)
        &&& l2 == l2_width(d)
        &&& forall|r: int, c: int|
            0 <= r < 25120 && 0 <= c < 1024 ==> #[trigger] self.ft_weights@[r]@[c] == (match row_offset(legacy, r) {
                Some(s) => le_i16(d, s + 2 * c),
                None => 0,
            })
        &&& forall|c: int| 0 <= c < 1024 ==> #[trigger] self.ft_biases@[c] == le_i16(d, o + 2 * c)
        &&& bytes_at(self.l1_weights@, d, o + 2048)
        &&& words_at(self.l1_biases@, d, b1)
        &&& bytes_at(self.l2_weights@, d, w2)
        &&& words_at(self.l2_biases@, d, b2)
        &&& bytes_at(self.l3_weights@, d, w3)
        &&& words_at(self.l3_biases@, d, w3 + 8 * l2)
    }
}

fn read_i16(data: &[u8], o: usize) -> (r: i16)
    requires
        o + 1 < data@.len(),
    ensures
        r == le_i16(data@, o as int),
{
    let v: i32 = data[o] as i32 + 256 * data[o + 1] as i32;
    if v >= 32768 {
        (v - 65536) as i16
    } else {
        v as i16
    }
}

fn read_u32(data: &[u8], o: usize) -> (r: u32)
    requires
        o + 3 < data@.len(),
    ensures
        r == le_u32(data@, o as int),
{
    data[o] as u32 + 256 * data[o + 1] as u32 + 65536 * data[o + 2] as u32 + 16777216 * data[o + 3] as u32
}

fn read_i32(data: &[u8], o: usize) -> (r: i32)
    requires
        o + 3 < data@.len(),
    ensures
        r == le_i32(data@, o as int),
{
    let v: i64 = read_u32(data, o) as i64;
    if v >= 2147483648 {
        (v - 4294967296) as i32
    } else {
        v as i32
    }
}

fn read_i8(data: &[u8], o: usize) -> (r: i8)
    requires
        o < data@.len(),
    ensures
        r == byte_i8(data@, o as int),
{
    let v: i16 = data[o] as i16;
    if v >= 128 {
        (v - 256) as i8
    } else {
        v as i8
    }
}

fn read_row16(data: &[u8], o: usize) -> (r: [i16; HIDDEN_SIZE])
    requires
        o + 2048 <= data@.len(),
        data@.len() <= usize::MAX,
    ensures
        forall|c: int| 0 <= c < 1024 ==> #[trigger] r@[c] == le_i16(data@, o + 2 * c),
{
    let mut r: [i16; HIDDEN_SIZE] = [0; HIDDEN_SIZE];
    let mut c: usize = 0;
    while c < 1024
        invariant
            c <= 1024,
            o + 2048 <= data@.len(),
            data@.len() <= usize::MAX,
            forall|j: int| 0 <= j < c ==> #[trigger] r@[j] == le_i16(data@, o + 2 * j),
        decreases 1024 - c,
    {
        r[c] = read_i16(data, o + 2 * c);
        c = c + 1;
    }
    r
}

fn zero_row16() -> (r: [i16; HIDDEN_SIZE])
    ensures
        forall|c: int| 0 <= c < 1024 ==> #[trigger] r@[c] == 0,
{
    let r: [i16; HIDDEN_SIZE] = [0; HIDDEN_SIZE];
    r
}

fn read_ft_weights(data: &[u8], legacy: bool) -> (r: Vec<[i16; HIDDEN_SIZE]>)
    requires
        tail_offset(legacy) <= data@.len(),
        data@.len() <= usize::MAX,
    ensures
        r@.len() == 25120,
        forall|row: int, c: int|
            0 <= row < 25120 && 0 <= c < 1024 ==> #[trigger] r@[row]@[c] == (match row_offset(legacy, row) {
                Some(s) => le_i16(data@, s + 2 * c),
                None => 0,
            }),
{
    let mut rows: Vec<[i16; HIDDEN_SIZE]> = Vec::new();
    let mut row: usize = 0;
    while row < 25120
        invariant
            row <= 25120,
            rows@.len() == row,
            tail_offset(legacy) <= data@.len(),
            data@.len() <= usize::MAX,
            forall|r: int, c: int|
                0 <= r < row && 0 <= c < 1024 ==> #[trigger] rows@[r]@[c] == (match row_offset(legacy, r) {
                    Some(s) => le_i16(data@, s + 2 * c),
                    None => 0,
                }),
        decreases 25120 - row,
    {
        // Version-1 files have 768 rows per king bucket; the state rows of the
        // wider layout stay zero.
        let values = if !legacy {
            read_row16(data, 32 + row * 2048)
        } else if row % 785 < 768 {
            proof {
                assert(row as int / 785 * 768 + row as int % 785 < 24576);
            }
            read_row16(data, 32 + (row / 785 * 768 + row % 785) * 2048)
        } else {
            zero_row16()
        };
        rows.push(values);
        row = row + 1;
    }
    rows
}

fn read_bytes(data: &[u8], o: usize, n: usize) -> (r: Vec<i8>)
    requires
        o + n <= data@.len(),
    ensures
        r@.len() == n,
        bytes_at(r@, data@, o as int),
{
    let len: usize = data.len();
    let mut v: Vec<i8> = Vec::new();
    let mut i: usize = 0;
    while i < n
        invariant
            i <= n,
            v@.len() == i,
            o + n <= len == data@.len(),
            bytes_at(v@, data@, o as int),
        decreases n - i,
    {
        v.push(read_i8(data, o + i));
        i = i + 1;
    }
    v
}

fn read_words(data: &[u8], o: usize, n: usize) -> (r: Vec<i32>)
    requires
        o + 4 * n <= data@.len(),
    ensures
        r@.len() == n,
        words_at(r@, data@, o as int),
{
    let len: usize = data.len();
    let mut v: Vec<i32> = Vec::new();
    let mut i: usize = 0;
    while i < n
        invariant
            i <= n,
            v@.len() == i,
            o + 4 * n <= len == data@.len(),
            words_at(v@, data@, o as int),
        decreases n - i,
    {
        v.push(read_i32(data, o + 4 * i));
        i = i + 1;
    }
    v
}

proof fn lemma_widths(l1: int, l2: int)
    requires
        1 <= l1 <= 64,
        1 <= l2 <= 64,
    ensures
        1 <= l2 * l1 <= 4096,
{
    assert(1 <= l2 * l1 <= 4096) by (nonlinear_arith)
        requires
            1 <= l1 <= 64,
            1 <= l2 <= 64,
    ;
}

impl NnueNetwork {
    /// Read a network from the bytes of a file.
    pub fn from_bytes(data: &[u8]) -> (r: Result<Self, &'static str>)
        ensures
            is_network_file(data@) ==> r is Ok && r->Ok_0.is_read_from(data@),
            !is_network_file(data@) ==> r is Err && r->Err_0@ == NET_ERROR@,
    {
        if data.len() < 32 || data[0] != 69 || data[1] != 83 || data[2] != 80 || data[3] != 78 || data[4] != 78
            || data[5] != 85 || data[6] != 69 || data[7] != 50 {
            return Err(NET_ERROR);
        }
        let version: u32 = read_u32(data, 8);
        let inputs: u32 = read_u32(data, 12);
        let l1: usize = read_u32(data, 24) as usize;
        let l2: usize = read_u32(data, 28) as usize;
        let dimensions_match = read_u32(data, 16) == 1024 && read_u32(data, 20) == 8 && 1 <= l1 && l1 <= MAX_L1_SIZE
            && 1 <= l2 && l2 <= MAX_L2_SIZE;
        let legacy = version == 1 && inputs == 24576;
        let current = version == 2 && inputs == 25120;
        if !dimensions_match || (!legacy && !current) {
            return Err(NET_ERROR);
        }
        proof {
            lemma_widths(l1 as int, l2 as int);
        }
        let o: usize = if legacy { 32 + 24576 * 2048 } else { 32 + 25120 * 2048 };
        let b1: usize = o + 2048 + 8192 * l1;
        let w2: usize = b1 + 32 * l1;
        let b2: usize = w2 + 8 * (l2 * l1);
        let w3: usize = b2 + 32 * l2;
        let b3: usize = w3 + 8 * l2;
        let size: usize = b3 + 32;
        if data.len() < size || data.len() >= size + PAD_ALIGN {
            return Err(NET_ERROR);
        }
        Ok(
            NnueNetwork {
                l1_size: l1,
                l2_size: l2,
                ft_weights: read_ft_weights(data, legacy),
                ft_biases: read_row16(data, o),
                l1_weights: read_bytes(data, o + 2048, 8192 * l1),
                l1_biases: read_words(data, b1, 8 * l1),
                l2_weights: read_bytes(data, w2, 8 * (l2 * l1)),
                l2_biases: read_words(data, b2, 8 * l2),
                l3_weights: read_bytes(data, w3, 8 * l2),
                l3_biases: read_words(data, b3, 8),
            },
        )
    }

    /// Whether every parameter is zero.
    pub open spec fn is_zero(&self) -> bool {
        &&& self.ok()
        &&& forall|r: int, c: int| 0 <= r < 25120 && 0 <= c < 1024 ==> #[trigger] self.ft_weights@[r]@[c] == 0
        &&& forall|c: int| 0 <= c < 1024 ==> #[trigger] self.ft_biases@[c] == 0
        &&& forall|i: int| 0 <= i < self.l1_weights@.len() ==> #[trigger] self.l1_weights@[i] == 0
        &&& forall|i: int| 0 <= i < self.l1_biases@.len() ==> #[trigger] self.l1_biases@[i] == 0
        &&& forall|i: int| 0 <= i < self.l2_weights@.len() ==> #[trigger] self.l2_weights@[i] == 0
        &&& forall|i: int| 0 <= i < self.l2_biases@.len() ==> #[trigger] self.l2_biases@[i] == 0
        &&& forall|i: int| 0 <= i < self.l3_weights@.len() ==> #[trigger] self.l3_weights@[i] == 0
        &&& forall|i: int| 0 <= i < self.l3_biases@.len() ==> #[trigger] self.l3_biases@[i] == 0
    }

    /// The built-in network: an untrained placeholder with the usual widths.
    pub fn embedded() -> (r: Self)
        ensures
            r.is_zero(),
            r.l1_size == L1_SIZE,
            r.l2_size == L2_SIZE,
    {
        NnueNetwork {
            l1_size: L1_SIZE,
            l2_size: L2_SIZE,
            ft_weights: zero_ft_weights(),
            ft_biases: zero_row16(),
            l1_weights: zero_bytes(131072),
            l1_biases: zero_words(128),
            l2_weights: zero_bytes(4096),
            l2_biases: zero_words(256),
            l3_weights: zero_bytes(256),
            l3_biases: zero_words(8),
        }
    }

    /// A network is trained if some output weight is not zero.
    pub fn is_trained(&self) -> (r: bool)
        ensures
            r == self.trained(),
    {
        let mut i: usize = 0;
        while i < self.l3_weights.len()
            invariant
                i <= self.l3_weights@.len(),
                forall|j: int| 0 <= j < i ==> #[trigger] self.l3_weights@[j] == 0,
            decreases self.l3_weights@.len() - i,
        {
            if self.l3_weights[i] != 0 {
                return true;
            }
            i = i + 1;
        }
        false
    }
}

fn zero_ft_weights() -> (r: Vec<[i16; HIDDEN_SIZE]>)
    ensures
        r@.len() == 25120,
        forall|i: int, c: int| 0 <= i < 25120 && 0 <= c < 1024 ==> #[trigger] r@[i]@[c] == 0,
{
    let mut rows: Vec<[i16; HIDDEN_SIZE]> = Vec::new();
    let mut row: usize = 0;
    while row < 25120
        invariant
            row <= 25120,
            rows@.len() == row,
            forall|i: int, c: int| 0 <= i < row && 0 <= c < 1024 ==> #[trigger] rows@[i]@[c] == 0,
        decreases 25120 - row,
    {
        rows.push(zero_row16());
        row = row + 1;
    }
    rows
}

fn zero_bytes(n: usize) -> (r: Vec<i8>)
    ensures
        r@.len() == n,
        forall|i: int| 0 <= i < n ==> #[trigger] r@[i] == 0,
{
    let mut v: Vec<i8> = Vec::new();
    let mut i: usize = 0;
    while i < n
        invariant
            i <= n,
            v@.len() == i,
            forall|j: int| 0 <= j < i ==> #[trigger] v@[j] == 0,
        decreases n - i,
    {
        v.push(0);
        i = i + 1;
    }
    v
}

fn zero_words(n: usize) -> (r: Vec<i32>)
    ensures
        r@.len() == n,
        forall|i: int| 0 <= i < n ==> #[trigger] r@[i] == 0,
{
    let mut v: Vec<i32> = Vec::new();
    let mut i: usize = 0;
    while i < n
        invariant
            i <= n,
            v@.len() == i,
            forall|j: int| 0 <= j < i ==> #[trigger] v@[j] == 0,
        decreases n - i,
    {
        v.push(0);
        i = i + 1;
    }
    v
}

/// Numbers in a network file are little-endian and signed.
pub proof fn law_numbers_are_little_endian(d: Seq<u8>, o: int)
    ensures
        d[o + 1] < 128 ==> le_i16(d, o) == d[o] + 256 * d[o + 1],
        d[o + 1] >= 128 ==> le_i16(d, o) == d[o] + 256 * d[o + 1] - 65536,
        d[o + 3] < 128 ==> le_i32(d, o) == d[o] + 256 * d[o + 1] + 65536 * d[o + 2] + 16777216 * d[o + 3],
        d[o + 3] >= 128 ==> le_i32(d, o) == d[o] + 256 * d[o + 1] + 65536 * d[o + 2] + 16777216 * d[o + 3] - 4294967296,
        d[o] < 128 ==> byte_i8(d, o) == d[o],
        d[o] >= 128 ==> byte_i8(d, o) == d[o] - 256,
{
}

/// The parts of a current network file follow each other without a gap: header,
/// feature weights, feature biases, then weights and biases of the three layers.
pub proof fn law_parameters_follow_each_other(net: NnueNetwork, d: Seq<u8>, i: int)
    requires
        net.is_read_from(d),
        le_u32(d, 8) == 2,
        le_u32(d, 12) == 25120,
        0 <= i,
    ensures
        ({
            let biases = 32 + 25120 * 1024 * 2;
            let l1 = biases + 1024 * 2;
            let l1_biases = l1 + net.l1_weights@.len();
            let l2 = l1_biases + 4 * net.l1_biases@.len();
            let l2_biases = l2 + net.l2_weights@.len();
            let l3 = l2_biases + 4 * net.l2_biases@.len();
            let l3_biases = l3 + net.l3_weights@.len();
            &&& i < 1024 ==> net.ft_biases@[i] == le_i16(d, biases + 2 * i)
            &&& i < net.l1_weights@.len() ==> net.l1_weights@[i] == byte_i8(d, l1 + i)
            &&& i < net.l1_biases@.len() ==> net.l1_biases@[i] == le_i32(d, l1_biases + 4 * i)
            &&& i < net.l2_weights@.len() ==> net.l2_weights@[i] == byte_i8(d, l2 + i)
            &&& i < net.l2_biases@.len() ==> net.l2_biases@[i] == le_i32(d, l2_biases + 4 * i)
            &&& i < net.l3_weights@.len() ==> net.l3_weights@[i] == byte_i8(d, l3 + i)
            &&& i < net.l3_biases@.len() ==> net.l3_biases@[i] == le_i32(d, l3_biases + 4 * i)
        }),
{
}

/// The feature weights stand row by row behind the header.
pub proof fn law_feature_rows_follow_each_other(net: NnueNetwork, d: Seq<u8>, r: int, c: int)
    requires
        net.is_read_from(d),
        le_u32(d, 8) == 2,
        le_u32(d, 12) == 25120,
        0 <= r < 25120,
        0 <= c < 1024,
    ensures
        net.ft_weights@[r]@[c] == le_i16(d, 32 + (r * 1024 + c) * 2),
{
}

} // verus!
