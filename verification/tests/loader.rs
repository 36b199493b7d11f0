use perceptron::container::{HEADER_SIZE, IMAGE_MAGIC, LABEL_MAGIC};
use perceptron::loader::{load_image_set, load_label_set, LoadError};

fn header(magic: u32, count: u32) -> Vec<u8> {
    let mut bytes: Vec<u8> = Vec::new();
    bytes.extend_from_slice(&magic.to_be_bytes());
    bytes.extend_from_slice(&count.to_be_bytes());
    bytes
}

fn pixel(image: usize, index: usize) -> u8 {
    ((image * 131 + index * 7 + index / 256) % 256) as u8
}

fn image_file(count: usize) -> Vec<u8> {
    let mut bytes: Vec<u8> = header(0x803, count as u32);
    for image in 0..count {
        for index in 0..784 {
            bytes.push(pixel(image, index));
        }
    }
    bytes
}

fn label_file(labels: &[u8]) -> Vec<u8> {
    let mut bytes: Vec<u8> = header(0x801, labels.len() as u32);
    bytes.extend_from_slice(labels);
    bytes
}

#[test]
fn constants_of_the_format() {
    assert_eq!(HEADER_SIZE, 8);
    assert_eq!(IMAGE_MAGIC, 0x0000_0803);
    assert_eq!(LABEL_MAGIC, 0x0000_0801);
}

#[test]
fn two_images_come_back_in_order() {
    let bytes: Vec<u8> = image_file(2);
    assert_eq!(bytes.len(), 8 + 2 * 784);
    let images = load_image_set(&bytes).unwrap();
    assert_eq!(images.len(), 2);
    assert_eq!(images[0].data.len(), 784);
    assert_eq!(images[1].data.len(), 784);
    assert_eq!(&images[0].data[..], &bytes[8..8 + 784]);
    assert_eq!(&images[1].data[..], &bytes[8 + 784..8 + 2 * 784]);
    for index in 0..784 {
        assert_eq!(images[0].data[index], pixel(0, index));
        assert_eq!(images[1].data[index], pixel(1, index));
    }
    assert_ne!(images[0].data, images[1].data);
}

#[test]
fn wrong_magic_number_is_reported() {
    let mut bytes: Vec<u8> = header(0x999, 2);
    bytes.extend_from_slice(&[7u8; 2 * 784]);
    assert_eq!(
        load_image_set(&bytes).unwrap_err(),
        LoadError::BadMagicNumber { found: 0x999 }
    );
}

#[test]
fn five_bytes_are_truncated() {
    let bytes: Vec<u8> = vec![0, 0, 8, 3, 0];
    assert_eq!(load_image_set(&bytes).unwrap_err(), LoadError::TruncatedInput);
    assert_eq!(load_label_set(&bytes).unwrap_err(), LoadError::TruncatedInput);
}

#[test]
fn empty_input_is_truncated() {
    assert_eq!(load_image_set(&[]).unwrap_err(), LoadError::TruncatedInput);
    assert_eq!(load_label_set(&[]).unwrap_err(), LoadError::TruncatedInput);
}

#[test]
fn seven_bytes_are_truncated_whatever_they_say() {
    let bytes: Vec<u8> = vec![0x09, 0x09, 0x09, 0x09, 0, 0, 0];
    assert_eq!(load_image_set(&bytes).unwrap_err(), LoadError::TruncatedInput);
    assert_eq!(load_label_set(&bytes).unwrap_err(), LoadError::TruncatedInput);
}

#[test]
fn header_alone_with_no_items_is_accepted() {
    assert!(load_image_set(&header(0x803, 0)).unwrap().is_empty());
    assert!(load_label_set(&header(0x801, 0)).unwrap().is_empty());
}

#[test]
fn header_alone_with_items_announced_is_truncated() {
    assert_eq!(
        load_image_set(&header(0x803, 1)).unwrap_err(),
        LoadError::TruncatedInput
    );
    assert_eq!(
        load_label_set(&header(0x801, 1)).unwrap_err(),
        LoadError::TruncatedInput
    );
}

#[test]
fn one_missing_pixel_is_truncated() {
    let mut bytes: Vec<u8> = image_file(2);
    bytes.pop();
    assert_eq!(load_image_set(&bytes).unwrap_err(), LoadError::TruncatedInput);
    bytes.push(0);
    assert_eq!(load_image_set(&bytes).unwrap().len(), 2);
}

#[test]
fn one_missing_label_is_truncated() {
    let mut bytes: Vec<u8> = label_file(&[1, 2, 3]);
    bytes.pop();
    assert_eq!(load_label_set(&bytes).unwrap_err(), LoadError::TruncatedInput);
    bytes.push(9);
    assert_eq!(load_label_set(&bytes).unwrap(), vec![1u8, 2, 9]);
}

#[test]
fn largest_count_is_truncated_not_overflowed() {
    let mut images: Vec<u8> = header(0x803, u32::MAX);
    images.extend_from_slice(&[1u8; 784]);
    assert_eq!(load_image_set(&images).unwrap_err(), LoadError::TruncatedInput);
    let mut labels: Vec<u8> = header(0x801, u32::MAX);
    labels.extend_from_slice(&[1u8; 10]);
    assert_eq!(load_label_set(&labels).unwrap_err(), LoadError::TruncatedInput);
}

#[test]
fn wrong_magic_number_wins_over_missing_items() {
    let bytes: Vec<u8> = header(0x999, 1000);
    assert_eq!(
        load_image_set(&bytes).unwrap_err(),
        LoadError::BadMagicNumber { found: 0x999 }
    );
    assert_eq!(
        load_label_set(&bytes).unwrap_err(),
        LoadError::BadMagicNumber { found: 0x999 }
    );
}

#[test]
fn each_reader_refuses_the_other_kind() {
    assert_eq!(
        load_image_set(&label_file(&[1, 2, 3])).unwrap_err(),
        LoadError::BadMagicNumber { found: 0x801 }
    );
    assert_eq!(
        load_label_set(&image_file(1)).unwrap_err(),
        LoadError::BadMagicNumber { found: 0x803 }
    );
}

#[test]
fn magic_number_is_read_most_significant_byte_first() {
    let bytes: Vec<u8> = vec![0x03, 0x08, 0x00, 0x00, 0, 0, 0, 0];
    assert_eq!(
        load_image_set(&bytes).unwrap_err(),
        LoadError::BadMagicNumber { found: 0x0308_0000 }
    );
    let bytes: Vec<u8> = vec![0x12, 0x34, 0x56, 0x78, 0, 0, 0, 0];
    assert_eq!(
        load_label_set(&bytes).unwrap_err(),
        LoadError::BadMagicNumber { found: 0x1234_5678 }
    );
    let bytes: Vec<u8> = vec![0xff, 0xff, 0xff, 0xff, 0, 0, 0, 0];
    assert_eq!(
        load_label_set(&bytes).unwrap_err(),
        LoadError::BadMagicNumber { found: 0xffff_ffff }
    );
}

#[test]
fn count_is_read_most_significant_byte_first() {
    let labels: Vec<u8> = (0..258).map(|i: u32| (i % 10) as u8).collect();
    let bytes: Vec<u8> = label_file(&labels);
    assert_eq!(&bytes[4..8], &[0u8, 0, 1, 2]);
    assert_eq!(load_label_set(&bytes).unwrap(), labels);
    let mut swapped: Vec<u8> = bytes.clone();
    swapped[4..8].copy_from_slice(&[2u8, 1, 0, 0]);
    assert_eq!(load_label_set(&swapped).unwrap_err(), LoadError::TruncatedInput);
    let mut fewer: Vec<u8> = bytes.clone();
    fewer[4..8].copy_from_slice(&[0u8, 0, 0, 2]);
    assert_eq!(load_label_set(&fewer).unwrap(), vec![0u8, 1]);
}

#[test]
fn labels_come_back_in_order() {
    let labels: Vec<u8> = vec![5, 0, 4, 1, 9, 2, 1, 3, 1, 4];
    assert_eq!(load_label_set(&label_file(&labels)).unwrap(), labels);
}

#[test]
fn labels_are_not_judged() {
    let labels: Vec<u8> = vec![0, 9, 10, 200, 255];
    assert_eq!(load_label_set(&label_file(&labels)).unwrap(), labels);
}

#[test]
fn bytes_after_the_last_item_are_ignored() {
    let mut images: Vec<u8> = image_file(1);
    images.extend_from_slice(&[0xaau8; 100]);
    let read = load_image_set(&images).unwrap();
    assert_eq!(read.len(), 1);
    assert_eq!(&read[0].data[..], &images[8..8 + 784]);
    let mut labels: Vec<u8> = label_file(&[3, 1, 4]);
    labels.extend_from_slice(&[1u8, 5, 9]);
    assert_eq!(load_label_set(&labels).unwrap(), vec![3u8, 1, 4]);
}

#[test]
fn image_at_the_far_end_is_the_last_stretch_of_bytes() {
    let bytes: Vec<u8> = image_file(5);
    let images = load_image_set(&bytes).unwrap();
    assert_eq!(images.len(), 5);
    for (number, image) in images.iter().enumerate() {
        assert_eq!(&image.data[..], &bytes[8 + number * 784..8 + (number + 1) * 784]);
    }
    assert_eq!(images[4].data[783], bytes[bytes.len() - 1]);
}

#[test]
fn what_was_read_writes_back_to_the_same_bytes() {
    let mut bytes: Vec<u8> = image_file(3);
    bytes.extend_from_slice(&[1u8, 2, 3]);
    let images = load_image_set(&bytes).unwrap();
    let mut written: Vec<u8> = header(0x803, images.len() as u32);
    for image in images.iter() {
        written.extend_from_slice(&image.data);
    }
    assert_eq!(&written[..], &bytes[..bytes.len() - 3]);
}

#[test]
fn reading_twice_gives_the_same() {
    let bytes: Vec<u8> = image_file(2);
    let first = load_image_set(&bytes).unwrap();
    let second = load_image_set(&bytes).unwrap();
    assert_eq!(first.len(), second.len());
    for (a, b) in first.iter().zip(second.iter()) {
        assert_eq!(a.data, b.data);
    }
    let labels: Vec<u8> = label_file(&[1, 2, 3]);
    assert_eq!(load_label_set(&labels), load_label_set(&labels));
}
