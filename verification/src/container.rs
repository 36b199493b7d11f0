//! The binary container of a data set, as a mathematical object.
//!
//! A container is an eight-byte header followed by the items, back to back:
//! a magic number that tells the kind of container, then the number of items,
//! both as four bytes with the most significant byte first. An item of an
//! image container is the `IMAGE_SIZE` pixels of one image; an item of a label
//! container is one byte.

use vstd::prelude::*;

use crate::image::IMAGE_SIZE;
use crate::loader::LoadError;

verus! {

/// Length of the header in bytes.
pub const HEADER_SIZE: usize = 8;

/// Magic number of an image container.
pub const IMAGE_MAGIC: u32 = 0x803;

/// Magic number of a label container.
pub const LABEL_MAGIC: u32 = 0x801;

/// The number spelled by the four bytes from `at` on, most significant first.
pub open spec fn be_u32(bytes: Seq<u8>, at: int) -> int {
    bytes[at] * 0x100_0000 + bytes[at + 1] * 0x1_0000 + bytes[at + 2] * 0x100 + bytes[at + 3]
}

/// The magic number in the header of `data`.
pub open spec fn magic_number(data: Seq<u8>) -> int {
    be_u32(data, 0)
}

/// The number of items that the header of `data` announces.
pub open spec fn item_count(data: Seq<u8>) -> int {
    be_u32(data, 4)
}

/// The error that a container with the bytes `data` is rejected with, where
/// `magic` is the magic number expected and each item takes `item_size`
/// bytes; `None` where the container is accepted.
///
/// The header is judged first, so a wrong magic number is reported even
/// where the items are cut short as well. Bytes after the last announced
/// item are not looked at.
pub open spec fn rejection(data: Seq<u8>, magic: u32, item_size: int) -> Option<LoadError> {
    if data.len() < HEADER_SIZE {
        Some(LoadError::TruncatedInput)
    } else if magic_number(data) != magic {
        Some(LoadError::BadMagicNumber { found: magic_number(data) as u32 })
    } else if item_count(data) * item_size > data.len() - HEADER_SIZE {
        Some(LoadError::TruncatedInput)
    } else {
        None
    }
}

/// The bytes of item number `k` in a container whose items take `item_size`
/// bytes each.
pub open spec fn item(data: Seq<u8>, item_size: int, k: int) -> Seq<u8> {
    data.subrange(HEADER_SIZE + k * item_size, HEADER_SIZE + (k + 1) * item_size)
}

/// What an image container with the bytes `data` holds: the pixels of each
/// image in order, or the reason for which the container is rejected.
pub open spec fn decode_images(data: Seq<u8>) -> Result<Seq<Seq<u8>>, LoadError> {
    match rejection(data, IMAGE_MAGIC, IMAGE_SIZE as int) {
        Some(e) => Err(e),
        None => Ok(Seq::new(item_count(data) as nat, |k: int| item(data, IMAGE_SIZE as int, k))),
    }
}

/// What a label container with the bytes `data` holds: the labels in order,
/// or the reason for which the container is rejected.
pub open spec fn decode_labels(data: Seq<u8>) -> Result<Seq<u8>, LoadError> {
    match rejection(data, LABEL_MAGIC, 1) {
        Some(e) => Err(e),
        None => Ok(data.subrange(HEADER_SIZE as int, HEADER_SIZE + item_count(data))),
    }
}

/// The four bytes that spell `value`, most significant first.
pub open spec fn be_bytes(value: u32) -> Seq<u8> {
    seq![
        (value / 0x100_0000) as u8,
        (value / 0x1_0000 % 0x100) as u8,
        (value / 0x100 % 0x100) as u8,
        (value % 0x100) as u8,
    ]
}

/// The header of a container of the kind `magic` that holds `count` items.
pub open spec fn header(magic: u32, count: nat) -> Seq<u8> {
    be_bytes(magic) + be_bytes(count as u32)
}

/// The image container that holds exactly `images`, in this order.
pub open spec fn image_container(images: Seq<Seq<u8>>) -> Seq<u8> {
    header(IMAGE_MAGIC, images.len()) + images.flatten()
}

/// The label container that holds exactly `labels`, in this order.
pub open spec fn label_container(labels: Seq<u8>) -> Seq<u8> {
    header(LABEL_MAGIC, labels.len()) + labels
}

/// Four bytes written for a number spell that number, wherever they stand.
pub proof fn lemma_be_bytes_read_back(before: Seq<u8>, value: u32, after: Seq<u8>)
    ensures
        be_bytes(value).len() == 4,
        be_u32(before + be_bytes(value) + after, before.len() as int) == value,
{
    let bytes = before + be_bytes(value) + after;
    let at = before.len() as int;
    assert(bytes[at] == be_bytes(value)[0]);
    assert(bytes[at + 1] == be_bytes(value)[1]);
    assert(bytes[at + 2] == be_bytes(value)[2]);
    assert(bytes[at + 3] == be_bytes(value)[3]);
}

/// Four bytes are the written form of the number that they spell.
pub proof fn lemma_be_bytes_of_read(bytes: Seq<u8>, at: int)
    requires
        0 <= at,
        at + 4 <= bytes.len(),
    ensures
        0 <= be_u32(bytes, at) <= u32::MAX,
        be_bytes(be_u32(bytes, at) as u32) == bytes.subrange(at, at + 4),
{
    let b0 = bytes[at];
    let b1 = bytes[at + 1];
    let b2 = bytes[at + 2];
    let b3 = bytes[at + 3];
    let value = be_u32(bytes, at);
    assert(value / 0x100_0000 == b0);
    assert(value / 0x1_0000 % 0x100 == b1);
    assert(value / 0x100 % 0x100 == b2);
    assert(value % 0x100 == b3);
    assert(be_bytes(value as u32) =~= bytes.subrange(at, at + 4));
}

/// A header reads back as the magic number and the count it was written for.
pub proof fn lemma_header_read_back(magic: u32, count: nat, payload: Seq<u8>)
    requires
        count <= u32::MAX,
    ensures
        header(magic, count).len() == HEADER_SIZE,
        magic_number(header(magic, count) + payload) == magic,
        item_count(header(magic, count) + payload) == count,
{
    let data = header(magic, count) + payload;
    lemma_be_bytes_read_back(Seq::empty(), magic, be_bytes(count as u32) + payload);
    assert(data =~= Seq::<u8>::empty() + be_bytes(magic) + (be_bytes(count as u32) + payload));
    lemma_be_bytes_read_back(be_bytes(magic), count as u32, payload);
    assert(data =~= be_bytes(magic) + be_bytes(count as u32) + payload);
}

/// The first eight bytes of a container are the header written for its
/// magic number and its count.
proof fn lemma_header_of_read(data: Seq<u8>)
    requires
        data.len() >= HEADER_SIZE,
    ensures
        0 <= magic_number(data) <= u32::MAX,
        0 <= item_count(data) <= u32::MAX,
        header(magic_number(data) as u32, item_count(data) as nat) == data.subrange(
            0,
            HEADER_SIZE as int,
        ),
{
    lemma_be_bytes_of_read(data, 0);
    lemma_be_bytes_of_read(data, 4);
    assert(data.subrange(0, 4) + data.subrange(4, 8) =~= data.subrange(0, 8));
}

/// Where every item has `size` bytes, the items laid back to back take
/// `size` bytes each, and item `k` is found `k * size` bytes in.
proof fn lemma_flatten_uniform(items: Seq<Seq<u8>>, size: nat)
    requires
        forall|k: int| 0 <= k < items.len() ==> (#[trigger] items[k]).len() == size,
    ensures
        items.flatten().len() == items.len() * size,
        forall|k: int|
            0 <= k < items.len() ==> items.flatten().subrange(k * size, (k + 1) * size)
                == #[trigger] items[k],
    decreases items.len(),
{
    if items.len() == 0 {
    } else {
        let front = items.drop_last();
        let last = items.last();
        let n = front.len() as int;
        lemma_flatten_uniform(front, size);
        assert(items =~= front.push(last));
        front.lemma_flatten_push(last);
        assert(items.flatten() == front.flatten() + last);
        assert((n + 1) * size == n * size + size) by (nonlinear_arith);
        assert forall|k: int| 0 <= k < items.len() implies items.flatten().subrange(
            k * size,
            (k + 1) * size,
        ) == #[trigger] items[k] by {
            assert((k + 1) * size == k * size + size) by (nonlinear_arith);
            assert(0 <= k * size) by (nonlinear_arith)
                requires
                    0 <= k,
            ;
            if k < n {
                assert((k + 1) * size <= n * size) by (nonlinear_arith)
                    requires
                        k + 1 <= n,
                ;
                assert(front[k] == items[k]);
                assert(items.flatten().subrange(k * size, (k + 1) * size)
                    =~= front.flatten().subrange(k * size, (k + 1) * size));
            } else {
                assert(items.flatten().subrange(k * size, (k + 1) * size) =~= last);
            }
        }
    }
}

/// Items of `size` bytes each, cut out of `bytes` one after the other from
/// `start` on, give back that stretch of `bytes` when laid back to back.
proof fn lemma_flatten_of_cut(bytes: Seq<u8>, start: int, size: nat, count: nat)
    requires
        0 <= start,
        start + count * size <= bytes.len(),
    ensures
        Seq::new(count, |k: int| bytes.subrange(start + k * size, start + (k + 1) * size)).flatten()
            == bytes.subrange(start, start + count * size),
    decreases count,
{
    let items = Seq::new(count, |k: int| bytes.subrange(start + k * size, start + (k + 1) * size));
    if count == 0 {
        assert(items.flatten() =~= bytes.subrange(start, start + count * size));
    } else {
        let fewer = (count - 1) as nat;
        let front = Seq::new(
            fewer,
            |k: int| bytes.subrange(start + k * size, start + (k + 1) * size),
        );
        assert(count * size == fewer * size + size) by (nonlinear_arith)
            requires
                count == fewer + 1,
        ;
        assert(0 <= fewer * size) by (nonlinear_arith);
        lemma_flatten_of_cut(bytes, start, size, fewer);
        let last = bytes.subrange(start + fewer * size, start + count * size);
        assert(items =~= front.push(last));
        front.lemma_flatten_push(last);
        assert(items.flatten() =~= bytes.subrange(start, start + count * size));
    }
}

/// An image container written for a list of images reads back as that list.
pub proof fn law_image_round_trip(images: Seq<Seq<u8>>)
    requires
        images.len() <= u32::MAX,
        forall|k: int| 0 <= k < images.len() ==> (#[trigger] images[k]).len() == IMAGE_SIZE,
    ensures
        decode_images(image_container(images)) == Ok::<Seq<Seq<u8>>, LoadError>(images),
{
    let data = image_container(images);
    let payload = images.flatten();
    lemma_header_read_back(IMAGE_MAGIC, images.len(), payload);
    lemma_flatten_uniform(images, IMAGE_SIZE as nat);
    assert(rejection(data, IMAGE_MAGIC, IMAGE_SIZE as int) is None);
    let read = Seq::new(item_count(data) as nat, |k: int| item(data, IMAGE_SIZE as int, k));
    assert forall|k: int| 0 <= k < images.len() implies read[k] == images[k] by {
        assert(0 <= k * IMAGE_SIZE && (k + 1) * IMAGE_SIZE <= images.len() * IMAGE_SIZE);
        assert(item(data, IMAGE_SIZE as int, k) =~= payload.subrange(
            k * IMAGE_SIZE,
            (k + 1) * IMAGE_SIZE,
        ));
    }
    assert(read =~= images);
}

/// A label container written for a list of labels reads back as that list.
pub proof fn law_label_round_trip(labels: Seq<u8>)
    requires
        labels.len() <= u32::MAX,
    ensures
        decode_labels(label_container(labels)) == Ok::<Seq<u8>, LoadError>(labels),
{
    let data = label_container(labels);
    lemma_header_read_back(LABEL_MAGIC, labels.len(), labels);
    assert(data.subrange(HEADER_SIZE as int, HEADER_SIZE + item_count(data)) =~= labels);
}

/// Bytes that follow the last announced item change nothing of what an
/// accepted container holds.
pub proof fn law_trailing_bytes_ignored(data: Seq<u8>, rest: Seq<u8>)
    ensures
        decode_images(data) is Ok ==> decode_images(data + rest) == decode_images(data),
        decode_labels(data) is Ok ==> decode_labels(data + rest) == decode_labels(data),
{
    let longer = data + rest;
    if data.len() >= HEADER_SIZE {
        assert(magic_number(longer) == magic_number(data));
        assert(item_count(longer) == item_count(data));
    }
    if decode_images(data) is Ok {
        let n = item_count(data);
        assert forall|k: int| 0 <= k < n implies item(longer, IMAGE_SIZE as int, k) == item(
            data,
            IMAGE_SIZE as int,
            k,
        ) by {
            assert(0 <= k * IMAGE_SIZE && (k + 1) * IMAGE_SIZE <= n * IMAGE_SIZE);
            assert(item(longer, IMAGE_SIZE as int, k) =~= item(data, IMAGE_SIZE as int, k));
        }
        assert(decode_images(longer)->Ok_0 =~= decode_images(data)->Ok_0);
    }
    if decode_labels(data) is Ok {
        assert(decode_labels(longer)->Ok_0 =~= decode_labels(data)->Ok_0);
    }
}

/// Every accepted image container begins with the container written for
/// the images it holds: the reader accepts the written form and nothing else.
pub proof fn law_accepted_images_are_written(data: Seq<u8>)
    requires
        decode_images(data) is Ok,
    ensures
        image_container(decode_images(data)->Ok_0).is_prefix_of(data),
{
    let images = decode_images(data)->Ok_0;
    let n = item_count(data) as nat;
    lemma_header_of_read(data);
    lemma_flatten_of_cut(data, HEADER_SIZE as int, IMAGE_SIZE as nat, n);
    assert(images =~= Seq::new(
        n,
        |k: int|
            data.subrange(
                HEADER_SIZE as int + k * (IMAGE_SIZE as nat),
                HEADER_SIZE as int + (k + 1) * (IMAGE_SIZE as nat),
            ),
    ));
    assert(image_container(images) =~= data.subrange(0, HEADER_SIZE + n * IMAGE_SIZE));
}

/// Every accepted label container begins with the container written for
/// the labels it holds.
pub proof fn law_accepted_labels_are_written(data: Seq<u8>)
    requires
        decode_labels(data) is Ok,
    ensures
        label_container(decode_labels(data)->Ok_0).is_prefix_of(data),
{
    let labels = decode_labels(data)->Ok_0;
    lemma_header_of_read(data);
    assert(label_container(labels) =~= data.subrange(0, HEADER_SIZE + item_count(data)));
}

/// An accepted image container holds as many images as its header
/// announces, and each of them has all its `IMAGE_SIZE` pixels.
pub proof fn law_decoded_images_are_whole(data: Seq<u8>)
    requires
        decode_images(data) is Ok,
    ensures
        decode_images(data)->Ok_0.len() == item_count(data),
        forall|k: int|
            0 <= k < item_count(data) ==> (#[trigger] decode_images(data)->Ok_0[k]).len()
                == IMAGE_SIZE,
{
    let n = item_count(data);
    assert forall|k: int| 0 <= k < n implies (#[trigger] decode_images(data)->Ok_0[k]).len()
        == IMAGE_SIZE by {
        assert(0 <= k * IMAGE_SIZE && (k + 1) * IMAGE_SIZE <= n * IMAGE_SIZE);
    }
}

/// No sequence of bytes is accepted both as an image container and as a
/// label container.
pub proof fn law_kinds_are_disjoint(data: Seq<u8>)
    ensures
        !(decode_images(data) is Ok && decode_labels(data) is Ok),
{
}

} // verus!
