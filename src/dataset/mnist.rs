use vstd::prelude::*;
use crate::dataset::{Dataset, FeatureVector};

verus! {

/// The number of pixels of an image.
pub const IMAGE_SIZE: usize = 28 * 28;

/// A 28x28 handwritten digit; 255 means black, 0 means white.
pub struct Image {
    pixels: Vec<u8>,
}

impl FeatureVector for Image {
    closed spec fn features(&self) -> Seq<u8> {
        self.pixels@
    }

    fn feature(&self, i: usize) -> (r: u8) {
        self.pixels[i]
    }

    fn len(&self) -> (r: usize) {
        self.pixels.len()
    }
}

impl Image {
    pub closed spec fn wf(&self) -> bool {
        self.pixels@.len() == IMAGE_SIZE
    }

    /// The pixel at `index`, row by row.
    pub fn index(&self, index: usize) -> (r: u8)
        requires
            index < self.features().len(),
        ensures
            r == self.features()[index as int],
    {
        self.feature(index)
    }
}

/// Why a data file was refused.
#[derive(Clone, Copy, Debug, PartialEq, Eq, Structural)]
pub enum DataError {
    /// The file ends inside its header.
    Truncated,
    /// A header field holds an unexpected value.
    UnexpectedMagic,
    /// The body does not hold the number of entries that the header gives.
    UnexpectedCount,
}

/// The entry count of a header: the low two bytes of a big-endian field.
pub open spec fn header_count(b: Seq<u8>, at: int) -> nat {
    (b[at + 3] + 256 * b[at + 2]) as nat
}

/// Whether the four bytes at `at` are `[w, x, y, z]`.
pub open spec fn field_is(b: Seq<u8>, at: int, w: u8, x: u8, y: u8, z: u8) -> bool {
    b[at] == w && b[at + 1] == x && b[at + 2] == y && b[at + 3] == z
}

/// The error, if any, of a label file.
pub open spec fn label_file_error(b: Seq<u8>) -> Option<DataError> {
    if b.len() < 4 {
        Some(DataError::Truncated)
    } else if !field_is(b, 0, 0, 0, 8, 1) {
        Some(DataError::UnexpectedMagic)
    } else if b.len() < 8 {
        Some(DataError::Truncated)
    } else if b.len() - 8 != header_count(b, 4) {
        Some(DataError::UnexpectedCount)
    } else {
        None
    }
}

/// The error, if any, of an image file.
pub open spec fn image_file_error(b: Seq<u8>) -> Option<DataError> {
    if b.len() < 4 {
        Some(DataError::Truncated)
    } else if !field_is(b, 0, 0, 0, 8, 3) {
        Some(DataError::UnexpectedMagic)
    } else if b.len() < 12 {
        Some(DataError::Truncated)
    } else if !field_is(b, 8, 0, 0, 0, 28) {
        Some(DataError::UnexpectedMagic)
    } else if b.len() < 16 {
        Some(DataError::Truncated)
    } else if !field_is(b, 12, 0, 0, 0, 28) {
        Some(DataError::UnexpectedMagic)
    } else if b.len() - 16 != header_count(b, 4) * IMAGE_SIZE {
        Some(DataError::UnexpectedCount)
    } else {
        None
    }
}

/// `labels` holds the label bytes of the file `b`, in order.
pub open spec fn labels_of(labels: Seq<usize>, b: Seq<u8>) -> bool {
    &&& labels.len() == b.len() - 8
    &&& forall|i: int| 0 <= i < labels.len() ==> #[trigger] labels[i] == b[8 + i]
}

/// `images` holds the images of the file `b`, in order.
pub open spec fn images_of(images: Seq<Image>, b: Seq<u8>) -> bool {
    &&& images.len() == header_count(b, 4)
    &&& forall|i: int|
        0 <= i < images.len() ==> (#[trigger] images[i]).wf() && images[i].features()
            == b.subrange(16 + i * IMAGE_SIZE, 16 + (i + 1) * IMAGE_SIZE)
}

/// The error of the first malformed file, in the order train images, test
/// images, train labels, test labels.
pub open spec fn dataset_error(
    train_images: Seq<u8>,
    train_labels: Seq<u8>,
    test_images: Seq<u8>,
    test_labels: Seq<u8>,
) -> Option<DataError> {
    if image_file_error(train_images).is_some() {
        image_file_error(train_images)
    } else if image_file_error(test_images).is_some() {
        image_file_error(test_images)
    } else if label_file_error(train_labels).is_some() {
        label_file_error(train_labels)
    } else {
        label_file_error(test_labels)
    }
}

fn field_matches(b: &[u8], at: usize, want: [u8; 4]) -> (r: bool)
    requires
        at + 4 <= b@.len(),
    ensures
        r == field_is(b@, at as int, want[0], want[1], want[2], want[3]),
{
    b[at] == want[0] && b[at + 1] == want[1] && b[at + 2] == want[2] && b[at + 3] == want[3]
}

/// Parses the bytes of a label file: a magic field, a count, one byte per label.
pub fn parse_label_file(b: &[u8]) -> (r: Result<Vec<usize>, DataError>)
    ensures
        match r {
            Ok(labels) => label_file_error(b@).is_none() && labels_of(labels@, b@),
            Err(e) => label_file_error(b@) == Some(e),
        },
{
    if b.len() < 4 {
        return Err(DataError::Truncated);
    }
    if !field_matches(b, 0, [0, 0, 8, 1]) {
        return Err(DataError::UnexpectedMagic);
    }
    if b.len() < 8 {
        return Err(DataError::Truncated);
    }
    let count = (b[7] as usize) + ((b[6] as usize) * 256);
    if b.len() - 8 != count {
        return Err(DataError::UnexpectedCount);
    }
    let mut labels: Vec<usize> = Vec::new();
    let mut i: usize = 8;
    while i < b.len()
        invariant
            8 <= i <= b@.len(),
            labels@.len() == i - 8,
            forall|k: int| 0 <= k < labels@.len() ==> #[trigger] labels@[k] == b@[8 + k],
        decreases b@.len() - i,
    {
        labels.push(b[i] as usize);
        i = i + 1;
    }
    Ok(labels)
}

/// Parses the bytes of an image file: a magic field, a count, two dimension
/// fields of 28, then `IMAGE_SIZE` bytes per image.
pub fn parse_image_file(b: &[u8]) -> (r: Result<Vec<Image>, DataError>)
    ensures
        match r {
            Ok(images) => image_file_error(b@).is_none() && images_of(images@, b@),
            Err(e) => image_file_error(b@) == Some(e),
        },
{
    if b.len() < 4 {
        return Err(DataError::Truncated);
    }
    if !field_matches(b, 0, [0, 0, 8, 3]) {
        return Err(DataError::UnexpectedMagic);
    }
    if b.len() < 12 {
        return Err(DataError::Truncated);
    }
    if !field_matches(b, 8, [0, 0, 0, 28]) {
        return Err(DataError::UnexpectedMagic);
    }
    if b.len() < 16 {
        return Err(DataError::Truncated);
    }
    if !field_matches(b, 12, [0, 0, 0, 28]) {
        return Err(DataError::UnexpectedMagic);
    }
    let count = (b[7] as usize) + ((b[6] as usize) * 256);
    if b.len() - 16 != count * IMAGE_SIZE {
        return Err(DataError::UnexpectedCount);
    }
    let blen = b.len();
    let mut images: Vec<Image> = Vec::new();
    let mut i: usize = 0;
    while i < count
        invariant
            blen == b@.len(),
            i <= count,
            count == header_count(b@, 4),
            b@.len() - 16 == count * IMAGE_SIZE,
            images@.len() == i,
            forall|k: int|
                0 <= k < i ==> (#[trigger] images@[k]).wf() && images@[k].features() == b@.subrange(
                    16 + k * IMAGE_SIZE,
                    16 + (k + 1) * IMAGE_SIZE,
                ),
        decreases count - i,
    {
        assert(i * IMAGE_SIZE + IMAGE_SIZE <= count * IMAGE_SIZE) by (nonlinear_arith)
            requires
                i < count,
        ;
        assert((i + 1) * IMAGE_SIZE == i * IMAGE_SIZE + IMAGE_SIZE) by (nonlinear_arith);
        let offset = 16 + i * IMAGE_SIZE;
        let mut pixels: Vec<u8> = Vec::new();
        assert(pixels@ =~= b@.subrange(offset as int, offset as int));
        let mut j: usize = 0;
        while j < IMAGE_SIZE
            invariant
                j <= IMAGE_SIZE,
                offset == 16 + i * IMAGE_SIZE,
                offset + IMAGE_SIZE <= b@.len(),
                blen == b@.len(),
                pixels@ == b@.subrange(offset as int, offset + j),
            decreases IMAGE_SIZE - j,
        {
            pixels.push(b[offset + j]);
            j = j + 1;
            assert(pixels@ =~= b@.subrange(offset as int, offset + j));
        }
        images.push(Image { pixels });
        i = i + 1;
    }
    Ok(images)
}

/// A loaded copy of the MNIST dataset.
pub struct MNIST {
    train_data: Vec<Image>,
    test_data: Vec<Image>,
    train_labels: Vec<usize>,
    test_labels: Vec<usize>,
}

impl MNIST {
    /// The training images.
    pub closed spec fn train_images(&self) -> Seq<Image> {
        self.train_data@
    }

    /// The training labels.
    pub closed spec fn train_label_seq(&self) -> Seq<usize> {
        self.train_labels@
    }

    /// The test images.
    pub closed spec fn test_images(&self) -> Seq<Image> {
        self.test_data@
    }

    /// The test labels.
    pub closed spec fn test_label_seq(&self) -> Seq<usize> {
        self.test_labels@
    }

    /// Builds the dataset from the bytes of its four files. It fails, with the
    /// first file's error, exactly when one of the files is malformed.
    pub fn parse(
        train_images: &[u8],
        train_labels: &[u8],
        test_images: &[u8],
        test_labels: &[u8],
    ) -> (r: Result<MNIST, DataError>)
        ensures
            match r {
                Ok(m) => dataset_error(train_images@, train_labels@, test_images@, test_labels@).is_none()
                    && images_of(m.train_images(), train_images@) && images_of(
                    m.test_images(),
                    test_images@,
                ) && labels_of(m.train_label_seq(), train_labels@) && labels_of(
                    m.test_label_seq(),
                    test_labels@,
                ),
                Err(e) => dataset_error(train_images@, train_labels@, test_images@, test_labels@)
                    == Some(e),
            },
    {
        let train_data = match parse_image_file(train_images) {
            Ok(v) => v,
            Err(e) => return Err(e),
        };
        let test_data = match parse_image_file(test_images) {
            Ok(v) => v,
            Err(e) => return Err(e),
        };
        let train_labels = match parse_label_file(train_labels) {
            Ok(v) => v,
            Err(e) => return Err(e),
        };
        let test_labels = match parse_label_file(test_labels) {
            Ok(v) => v,
            Err(e) => return Err(e),
        };
        Ok(MNIST { train_data, test_data, train_labels, test_labels })
    }
}

impl Dataset for MNIST {
    type Sample = Image;

    fn feature_max() -> usize {
        IMAGE_SIZE - 1
    }

    fn threshold_max() -> u8 {
        254
    }

    fn train_data(&self) -> (&[Image], &[usize]) {
        (self.train_data.as_slice(), self.train_labels.as_slice())
    }

    fn test_data(&self) -> (&[Image], &[usize]) {
        (self.test_data.as_slice(), self.test_labels.as_slice())
    }
}

} // verus!
