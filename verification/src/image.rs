use vstd::prelude::*;

verus! {

/// Number of pixels in one image (28 rows of 28 pixels, stored row by row).
pub const IMAGE_SIZE: usize = 784;

/// One grayscale image: `IMAGE_SIZE` intensities, each from 0 to 255.
#[derive(Debug)]
pub struct Image {
    pub data: Vec<u8>,
}

impl View for Image {
    type V = Seq<u8>;

    /// The pixel intensities in storage order.
    open spec fn view(&self) -> Seq<u8> {
        self.data@
    }
}

impl Image {
    /// An image is well formed when it holds exactly `IMAGE_SIZE` pixels.
    pub open spec fn wf(&self) -> bool {
        self.data@.len() == IMAGE_SIZE
    }

    /// The all-black image.
    pub fn new() -> (image: Image)
        ensures
            image.wf(),
            image@ == Seq::new(IMAGE_SIZE as nat, |i: int| 0u8),
    {
        let mut data: Vec<u8> = Vec::new();
        let mut i: usize = 0;
        while i < IMAGE_SIZE
            invariant
                i <= IMAGE_SIZE,
                data@ == Seq::new(i as nat, |k: int| 0u8),
            decreases IMAGE_SIZE - i,
        {
            data.push(0u8);
            i = i + 1;
            assert(data@ =~= Seq::new(i as nat, |k: int| 0u8));
        }
        Image { data }
    }
}

} // verus!
