//! MNIST data files: a gzip stream holding a big-endian dimension header
//! (a magic number, then one size for label files or three for image files)
//! followed by the raw payload bytes. Decompression is flate2's work; the
//! header parsing and the slicing of the payload into images are verified.

use vstd::prelude::*;

use crate::error::WisardError;

verus! {

/// The bytes a gzip stream inflates to: a function of the stream alone.
pub uninterp spec fn inflate_of(b: Seq<u8>) -> Seq<u8>;

/// Relies on flate2's `GzDecoder`: inflates a gzip stream to the bytes it
/// compresses, a function of the stream alone; a malformed stream fails.
#[verifier::external_body]
fn gunzip(bytes: &Vec<u8>) -> (r: Option<Vec<u8>>)
    ensures
        r matches Some(d) ==> d@ == inflate_of(bytes@),
{
    let mut out: Vec<u8> = Vec::new();
    let mut gz = flate2::read::GzDecoder::new(&bytes[..]);
    match std::io::Read::read_to_end(&mut gz, &mut out) {
        Ok(_) => Some(out),
        Err(_) => None,
    }
}

/// The big-endian 32-bit value at byte offset `p`.
pub open spec fn be32_at(b: Seq<u8>, p: int) -> u32 {
    ((b[p] as u32) << 24) | ((b[p + 1] as u32) << 16) | ((b[p + 2] as u32) << 8) | (b[p + 3]
        as u32)
}

/// What an inflated MNIST file parses to: its sizes and its payload. A label
/// file (magic 2049) carries one size, an image file (magic 2051) three; any
/// other magic, a truncated header, or a size too large for a signed 32-bit
/// count is malformed.
pub open spec fn spec_parse_mnist(b: Seq<u8>) -> Option<(Seq<i32>, Seq<u8>)> {
    if b.len() < 8 {
        None
    } else if be32_at(b, 0) == 2049 {
        if be32_at(b, 4) > 0x7fffffff {
            None
        } else {
            Some((seq![be32_at(b, 4) as i32], b.skip(8)))
        }
    } else if be32_at(b, 0) == 2051 {
        if b.len() < 16 {
            None
        } else if be32_at(b, 4) > 0x7fffffff || be32_at(b, 8) > 0x7fffffff || be32_at(b, 12)
            > 0x7fffffff {
            None
        } else {
            Some((seq![be32_at(b, 4) as i32, be32_at(b, 8) as i32, be32_at(b, 12) as i32], b.skip(16)))
        }
    } else {
        None
    }
}

/// A parsed MNIST data file: its dimension sizes and its raw payload.
#[derive(Debug)]
pub struct MnistData {
    pub sizes: Vec<i32>,
    pub data: Vec<u8>,
}

/// Reads the big-endian 32-bit value at a byte offset.
fn be32(b: &Vec<u8>, p: usize) -> (r: u32)
    requires
        p + 4 <= b@.len(),
    ensures
        r == be32_at(b@, p as int),
{
    let _n = b.len();
    proof {
        assert(b@.len() <= usize::MAX);
    }
    ((b[p] as u32) << 24u32) | ((b[p + 1] as u32) << 16u32) | ((b[p + 2] as u32) << 8u32) | (b[p
        + 3] as u32)
}

/// Copies the payload that follows a header of `skip` bytes.
fn tail_of(b: &Vec<u8>, skip: usize) -> (r: Vec<u8>)
    requires
        skip <= b@.len(),
    ensures
        r@ == b@.skip(skip as int),
{
    let mut r: Vec<u8> = Vec::new();
    let mut i: usize = skip;
    while i < b.len()
        invariant
            skip <= i <= b@.len(),
            r@ == b@.subrange(skip as int, i as int),
        decreases b@.len() - i,
    {
        r.push(b[i]);
        proof {
            assert(r@ =~= b@.subrange(skip as int, i + 1));
        }
        i += 1;
    }
    proof {
        assert(b@.subrange(skip as int, b@.len() as int) =~= b@.skip(skip as int));
    }
    r
}

impl MnistData {
    /// Parses an already inflated MNIST file.
    pub fn parse(b: &Vec<u8>) -> (r: Result<MnistData, WisardError>)
        ensures
            match spec_parse_mnist(b@) {
                Some(p) => r matches Ok(m) && m.sizes@ == p.0 && m.data@ == p.1,
                None => r == Err::<MnistData, WisardError>(WisardError::WisardSerializationError),
            },
    {
        if b.len() < 8 {
            return Err(WisardError::WisardSerializationError);
        }
        let magic = be32(b, 0);
        if magic == 2049 {
            let n = be32(b, 4);
            if n > 0x7fffffff {
                return Err(WisardError::WisardSerializationError);
            }
            let mut sizes: Vec<i32> = Vec::new();
            sizes.push(n as i32);
            let data = tail_of(b, 8);
            proof {
                assert(sizes@ =~= seq![be32_at(b@, 4) as i32]);
            }
            Ok(MnistData { sizes, data })
        } else if magic == 2051 {
            if b.len() < 16 {
                return Err(WisardError::WisardSerializationError);
            }
            let n = be32(b, 4);
            let rows = be32(b, 8);
            let cols = be32(b, 12);
            if n > 0x7fffffff || rows > 0x7fffffff || cols > 0x7fffffff {
                return Err(WisardError::WisardSerializationError);
            }
            let mut sizes: Vec<i32> = Vec::new();
            sizes.push(n as i32);
            sizes.push(rows as i32);
            sizes.push(cols as i32);
            let data = tail_of(b, 16);
            proof {
                assert(sizes@ =~= seq![
                    be32_at(b@, 4) as i32,
                    be32_at(b@, 8) as i32,
                    be32_at(b@, 12) as i32,
                ]);
            }
            Ok(MnistData { sizes, data })
        } else {
            Err(WisardError::WisardSerializationError)
        }
    }

    /// Inflates a gzip stream and parses the MNIST file inside it. A stream
    /// that does not inflate fails as a file error; an inflated file that is
    /// no MNIST file fails as a malformed stream.
    pub fn new(gz_bytes: &Vec<u8>) -> (r: Result<MnistData, WisardError>)
        ensures
            r matches Ok(m) ==> (spec_parse_mnist(inflate_of(gz_bytes@)) matches Some(p) && m
                .sizes@ == p.0 && m.data@ == p.1),
    {
        match gunzip(gz_bytes) {
            Some(d) => MnistData::parse(&d),
            None => Err(WisardError::WisardIOError),
        }
    }

    /// Slices an image file's payload into its images, each of
    /// `rows * cols` bytes. Anything but a non-negative three-size header
    /// whose images all fit inside the payload is rejected.
    pub fn images(&self) -> (r: Option<Vec<Vec<u8>>>)
        ensures
            ({
                let ok = self.sizes@.len() == 3 && self.sizes@[0] >= 0 && self.sizes@[1] >= 0
                    && self.sizes@[2] >= 0 && (self.sizes@[0] as int) * ((self.sizes@[1] as int)
                    * (self.sizes@[2] as int)) <= self.data@.len();
                match r {
                    Some(imgs) => ok && imgs@.len() == self.sizes@[0] as int && (forall|i: int|
                        0 <= i < imgs@.len() ==> #[trigger] imgs@[i]@ == self.data@.subrange(
                            i * ((self.sizes@[1] as int) * (self.sizes@[2] as int)),
                            (i + 1) * ((self.sizes@[1] as int) * (self.sizes@[2] as int)),
                        )),
                    None => !ok,
                }
            }),
    {
        if self.sizes.len() != 3 {
            return None;
        }
        let n_i = self.sizes[0];
        let r_i = self.sizes[1];
        let c_i = self.sizes[2];
        if n_i < 0 || r_i < 0 || c_i < 0 {
            return None;
        }
        let n = n_i as u64;
        proof {
            assert(r_i as u64 <= 0x7fffffff && c_i as u64 <= 0x7fffffff);
            assert(((r_i as u64) as int) * ((c_i as u64) as int) <= 0x7fffffff
                * 0x7fffffff) by (nonlinear_arith)
                requires
                    0 <= (r_i as u64) as int <= 0x7fffffff,
                    0 <= (c_i as u64) as int <= 0x7fffffff,
            ;
        }
        let shape: u64 = (r_i as u64) * (c_i as u64);
        let dlen = self.data.len() as u64;
        let mut imgs: Vec<Vec<u8>> = Vec::new();
        let mut i: u64 = 0;
        let mut start: u64 = 0;
        while i < n
            invariant
                i <= n,
                n == self.sizes@[0] as int,
                self.sizes@.len() == 3,
                self.sizes@[0] >= 0,
                self.sizes@[1] >= 0,
                self.sizes@[2] >= 0,
                shape == (self.sizes@[1] as int) * (self.sizes@[2] as int),
                dlen == self.data@.len(),
                start == i * shape,
                start <= dlen,
                dlen <= usize::MAX,
                imgs@.len() == i,
                forall|q: int|
                    0 <= q < i ==> #[trigger] imgs@[q]@ == self.data@.subrange(
                        q * (shape as int),
                        (q + 1) * (shape as int),
                    ),
            decreases n - i,
        {
            if shape > dlen - start {
                proof {
                    assert((i + 1) * (shape as int) == i * (shape as int)
                        + shape) by (nonlinear_arith);
                    assert((i + 1) * (shape as int) > dlen);
                    assert((i + 1) <= n as int);
                    vstd::arithmetic::mul::lemma_mul_inequality(
                        i + 1,
                        n as int,
                        shape as int,
                    );
                    assert((n as int) * (shape as int) > self.data@.len());
                }
                return None;
            }
            let mut img: Vec<u8> = Vec::new();
            let mut j: u64 = 0;
            while j < shape
                invariant
                    j <= shape,
                    start + shape <= dlen,
                    dlen == self.data@.len(),
                    dlen <= usize::MAX,
                    img@ == self.data@.subrange(start as int, (start + j) as int),
                decreases shape - j,
            {
                img.push(self.data[(start + j) as usize]);
                proof {
                    assert(img@ =~= self.data@.subrange(start as int, (start + j + 1) as int));
                }
                j += 1;
            }
            imgs.push(img);
            proof {
                assert((i + 1) * (shape as int) == i * (shape as int) + shape) by (nonlinear_arith)
                ;
            }
            start = start + shape;
            i += 1;
        }
        proof {
            vstd::arithmetic::mul::lemma_mul_inequality(n as int, n as int, shape as int);
        }
        Some(imgs)
    }
}

} // verus!
