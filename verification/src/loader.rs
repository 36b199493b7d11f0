//! Readers for the two binary containers of a data set. What a container
//! holds is defined in `container`; the readers here compute it.

use vstd::prelude::*;

use crate::container::{
    be_u32, decode_images, decode_labels, item, item_count, rejection, HEADER_SIZE, IMAGE_MAGIC,
    LABEL_MAGIC,
};
use crate::image::{Image, IMAGE_SIZE};

verus! {

/// Why a container was rejected.
#[derive(Debug, Clone, Copy, PartialEq, Eq, Structural)]
pub enum LoadError {
    /// The input is shorter than a header, or shorter than the items that
    /// its header announces.
    TruncatedInput,
    /// The header starts with another number than the one expected.
    BadMagicNumber { found: u32 },
}

fn read_u32(data: &[u8], at: usize) -> (value: u32)
    requires
        at + 4 <= data@.len(),
    ensures
        value == be_u32(data@, at as int),
{
    let b0: u8 = data[at];
    let b1: u8 = data[at + 1];
    let b2: u8 = data[at + 2];
    let b3: u8 = data[at + 3];
    assert(((b0 as u32) << 24 | (b1 as u32) << 16 | (b2 as u32) << 8 | (b3 as u32)) == b0
        * 0x100_0000 + b1 * 0x1_0000 + b2 * 0x100 + b3) by (bit_vector);
    (b0 as u32) << 24 | (b1 as u32) << 16 | (b2 as u32) << 8 | (b3 as u32)
}

/// The pixels of each image of a list.
pub open spec fn pixels(images: Seq<Image>) -> Seq<Seq<u8>> {
    Seq::new(images.len(), |k: int| images[k]@)
}

/// Judges the header of a container and gives the number of its items.
fn read_header(data: &[u8], magic: u32, item_size: usize) -> (r: Result<usize, LoadError>)
    requires
        0 < item_size <= IMAGE_SIZE,
    ensures
        match r {
            Ok(count) => rejection(data@, magic, item_size as int) is None && count == item_count(
                data@,
            ),
            Err(e) => rejection(data@, magic, item_size as int) == Some(e),
        },
{
    if data.len() < HEADER_SIZE {
        return Err(LoadError::TruncatedInput);
    }
    let found: u32 = read_u32(data, 0);
    if found != magic {
        return Err(LoadError::BadMagicNumber { found });
    }
    let count: u32 = read_u32(data, 4);
    let payload: usize = data.len() - HEADER_SIZE;
    assert(count * item_size <= 0xffff_ffff * IMAGE_SIZE) by (nonlinear_arith)
        requires
            count <= 0xffff_ffff,
            0 < item_size <= IMAGE_SIZE,
    ;
    if count as u64 * item_size as u64 > payload as u64 {
        return Err(LoadError::TruncatedInput);
    }
    Ok(count as usize)
}

/// Reads an image container.
///
/// Returns the images in the order in which the container holds them, each
/// with its `IMAGE_SIZE` pixels, or the error that `decode_images` gives for
/// these bytes.
pub fn load_image_set(data: &[u8]) -> (r: Result<Vec<Image>, LoadError>)
    ensures
        match r {
            Ok(images) => {
                &&& decode_images(data@) == Ok::<Seq<Seq<u8>>, LoadError>(pixels(images@))
                &&& images@.len() == item_count(data@)
                &&& forall|k: int|
                    0 <= k < images@.len() ==> {
                        &&& (#[trigger] images@[k]).wf()
                        &&& images@[k]@ == item(data@, IMAGE_SIZE as int, k)
                    }
            },
            Err(e) => decode_images(data@) == Err::<Seq<Seq<u8>>, LoadError>(e),
        },
{
    let count: usize = match read_header(data, IMAGE_MAGIC, IMAGE_SIZE) {
        Ok(count) => count,
        Err(e) => { return Err(e); },
    };
    let len: usize = data.len();
    let mut images: Vec<Image> = Vec::new();
    let mut n: usize = 0;
    while n < count
        invariant
            n <= count,
            len == data@.len(),
            HEADER_SIZE + count * IMAGE_SIZE <= len,
            images@.len() == n,
            forall|k: int|
                0 <= k < n ==> (#[trigger] images@[k])@ == item(data@, IMAGE_SIZE as int, k),
        decreases count - n,
    {
        let start: usize = HEADER_SIZE + n * IMAGE_SIZE;
        let mut image = Image::new();
        let mut p: usize = 0;
        while p < IMAGE_SIZE
            invariant
                p <= IMAGE_SIZE,
                len == data@.len(),
                start + IMAGE_SIZE <= len,
                image.wf(),
                forall|j: int| 0 <= j < p ==> #[trigger] image.data@[j] == data@[start + j],
            decreases IMAGE_SIZE - p,
        {
            image.data.set(p, data[start + p]);
            p = p + 1;
        }
        assert(image@ =~= item(data@, IMAGE_SIZE as int, n as int));
        images.push(image);
        n = n + 1;
    }
    assert(pixels(images@) =~= Seq::new(
        item_count(data@) as nat,
        |k: int| item(data@, IMAGE_SIZE as int, k),
    ));
    Ok(images)
}

/// Reads a label container.
///
/// Returns the labels in the order in which the container holds them, or the
/// error that `decode_labels` gives for these bytes. A label is handed on as
/// it stands, whatever its value.
pub fn load_label_set(data: &[u8]) -> (r: Result<Vec<u8>, LoadError>)
    ensures
        match r {
            Ok(labels) => decode_labels(data@) == Ok::<Seq<u8>, LoadError>(labels@),
            Err(e) => decode_labels(data@) == Err::<Seq<u8>, LoadError>(e),
        },
{
    let count: usize = match read_header(data, LABEL_MAGIC, 1) {
        Ok(count) => count,
        Err(e) => { return Err(e); },
    };
    let len: usize = data.len();
    let mut labels: Vec<u8> = Vec::new();
    let mut n: usize = 0;
    while n < count
        invariant
            n <= count,
            len == data@.len(),
            HEADER_SIZE + count <= len,
            labels@ == data@.subrange(HEADER_SIZE as int, HEADER_SIZE + n),
        decreases count - n,
    {
        labels.push(data[HEADER_SIZE + n]);
        n = n + 1;
        assert(labels@ =~= data@.subrange(HEADER_SIZE as int, HEADER_SIZE + n));
    }
    Ok(labels)
}

} // verus!
