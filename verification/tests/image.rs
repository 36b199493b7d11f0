use perceptron::image::{Image, IMAGE_SIZE};

#[test]
fn image_size_is_28_by_28() {
    assert_eq!(IMAGE_SIZE, 28 * 28);
}

#[test]
fn new_image_is_black() {
    let image = Image::new();
    assert_eq!(image.data.len(), 784);
    assert!(image.data.iter().all(|pixel| *pixel == 0));
}

#[test]
fn new_image_pixels_can_be_set() {
    let mut image = Image::new();
    image.data[0] = 255;
    image.data[783] = 1;
    assert_eq!(image.data[0], 255);
    assert_eq!(image.data[1], 0);
    assert_eq!(image.data[783], 1);
    assert_eq!(image.data.len(), 784);
}
