//! A dataset as the bytes of a file.
//!
//! A file is the header, then the length of the compressed payload in eight
//! bytes, then the compressed payload. The payload is, for each image in
//! order, the bytes of the image and then its label in two bytes. Numbers
//! are little-endian.

use vstd::prelude::*;
use vstd::slice::{slice_subrange, slice_to_vec};
use crate::dataset::{images_of, into_boxed, Dataset, DatasetView, Label, LabeledImage};
use crate::deflate::{deflate, deflated, inflate, inflated};
use crate::error::Error;
use crate::header::{Header, HeaderView};
use crate::table::append_bytes;
use crate::wire::{
    get_u16, get_u64, le_bytes, le_value, lemma_le_bytes_len, lemma_le_value_of_le_bytes,
    lemma_radix_values, put_u16, put_u64,
};

verus! {

/// The number of bytes that a label takes in the payload.
pub const LABEL_LEN: usize = 2;

/// The number of bytes of one record, for images of `image_size` bytes.
pub open spec fn record_len(image_size: nat) -> nat {
    image_size + LABEL_LEN as nat
}

/// The bytes of one record: the image, then its label.
pub open spec fn record_bytes(image: (Seq<u8>, Label)) -> Seq<u8> {
    image.0 + le_bytes(image.1 as nat, 2)
}

/// The payload that holds `images`: their records, one after the other.
pub open spec fn payload_bytes(images: Seq<(Seq<u8>, Label)>) -> Seq<u8>
    decreases images.len(),
{
    if images.len() == 0 {
        Seq::empty()
    } else {
        payload_bytes(images.drop_last()) + record_bytes(images.last())
    }
}

/// The record at position `at` of a payload whose images have `image_size`
/// bytes each.
pub open spec fn record_at(payload: Seq<u8>, image_size: nat, at: int) -> (Seq<u8>, Label) {
    let start = at * record_len(image_size);
    (
        payload.subrange(start, start + image_size),
        le_value(payload.subrange(start + image_size, start + record_len(image_size))) as Label,
    )
}

/// The records of a payload whose images have `image_size` bytes each: as
/// many as fit whole. Bytes behind the last whole record are not looked at.
pub open spec fn parse_records(payload: Seq<u8>, image_size: nat) -> Seq<(Seq<u8>, Label)> {
    Seq::new(
        payload.len() / record_len(image_size),
        |at: int| record_at(payload, image_size, at),
    )
}

impl DatasetView {
    /// The payload of the dataset, before compression.
    pub open spec fn payload(self) -> Seq<u8> {
        payload_bytes(self.images)
    }

    /// The dataset that a header and a payload make: the records of the
    /// payload are its images. A label that names no class of the header
    /// makes the whole payload corrupt.
    pub open spec fn from_payload(header: HeaderView, payload: Seq<u8>) -> Result<
        DatasetView,
        Error,
    > {
        let images = parse_records(payload, header.image_size());
        if forall|i: int| 0 <= i < images.len() ==> (#[trigger] images[i]).1 < header.classes.len() {
            Ok(DatasetView { header, images })
        } else {
            Err(Error::CorruptFile)
        }
    }

    /// The bytes of the file of this dataset, for a payload compressed to
    /// `packed`.
    pub open spec fn framed(self, packed: Seq<u8>) -> Seq<u8> {
        self.header.to_bytes() + le_bytes(packed.len(), 8) + packed
    }

    /// The header and the compressed payload that the bytes of a file hold,
    /// or the failure of taking them apart.
    pub open spec fn parse_frame(bytes: Seq<u8>) -> Result<(HeaderView, Seq<u8>), Error> {
        match HeaderView::parse(bytes) {
            Err(error) => Err(error),
            Ok((header, used)) => {
                if bytes.len() < used + 8 {
                    Err(Error::truncated())
                } else {
                    let packed_len = le_value(bytes.subrange(used, used + 8));
                    if bytes.len() < used + 8 + packed_len {
                        Err(Error::truncated())
                    } else {
                        Ok((header, bytes.subrange(used + 8, used + 8 + packed_len)))
                    }
                }
            },
        }
    }

    /// What reading the bytes of a file gives.
    pub open spec fn parse(bytes: Seq<u8>) -> Result<DatasetView, Error> {
        match DatasetView::parse_frame(bytes) {
            Err(error) => Err(error),
            Ok((header, packed)) => match inflated(packed) {
                Err(kind) => Err(Error::Io(kind)),
                Ok(payload) => DatasetView::from_payload(header, payload),
            },
        }
    }

    /// What writing the dataset gives: the bytes of its file, or the failure
    /// of the compression.
    pub open spec fn to_bytes(self) -> Result<Seq<u8>, Error> {
        match deflated(self.payload()) {
            Err(kind) => Err(Error::Io(kind)),
            Ok(packed) => Ok(self.framed(packed)),
        }
    }
}

/// A payload of `count` images of `image_size` bytes each has `count` times
/// `image_size + 2` bytes, and its record at position `at` is that of the
/// image at `at`.
pub proof fn lemma_payload_records(images: Seq<(Seq<u8>, Label)>, image_size: nat, at: int)
    requires
        forall|i: int| 0 <= i < images.len() ==> (#[trigger] images[i]).0.len() == image_size,
        0 <= at < images.len(),
    ensures
        payload_bytes(images).len() == images.len() * record_len(image_size),
        0 <= at * record_len(image_size),
        (at + 1) * record_len(image_size) <= payload_bytes(images).len(),
        payload_bytes(images).subrange(
            at * record_len(image_size),
            (at + 1) * record_len(image_size),
        ) == record_bytes(images[at]),
    decreases images.len(),
{
    let step = record_len(image_size);
    let fewer = images.drop_last();
    let payload = payload_bytes(images);
    lemma_payload_len(images, image_size);
    lemma_payload_len(fewer, image_size);
    lemma_le_bytes_len(images.last().1 as nat, 2);
    assert(record_bytes(images.last()).len() == step);
    assert(fewer.len() * step + step == images.len() * step) by (nonlinear_arith)
        requires
            fewer.len() + 1 == images.len(),
    ;
    assert(0 <= at * step && (at + 1) * step == at * step + step) by (nonlinear_arith)
        requires
            0 <= at,
            0 <= step,
    ;
    if at == images.len() - 1 {
        assert(payload.subrange(at * step, (at + 1) * step) =~= record_bytes(images[at]));
    } else {
        lemma_payload_records(fewer, image_size, at);
        assert(fewer[at] == images[at]);
        assert(payload.subrange(at * step, (at + 1) * step) =~= payload_bytes(fewer).subrange(
            at * step,
            (at + 1) * step,
        ));
    }
}

/// A payload of `count` images of `image_size` bytes each has `count` times
/// `image_size + 2` bytes.
pub proof fn lemma_payload_len(images: Seq<(Seq<u8>, Label)>, image_size: nat)
    requires
        forall|i: int| 0 <= i < images.len() ==> (#[trigger] images[i]).0.len() == image_size,
    ensures
        payload_bytes(images).len() == images.len() * record_len(image_size),
    decreases images.len(),
{
    let step = record_len(image_size);
    if images.len() == 0 {
        assert(images.len() * step == 0) by (nonlinear_arith)
            requires
                images.len() == 0,
        ;
    } else {
        let fewer = images.drop_last();
        lemma_payload_len(fewer, image_size);
        lemma_le_bytes_len(images.last().1 as nat, 2);
        assert(images[images.len() - 1].0.len() == image_size);
        assert(fewer.len() * step + step == images.len() * step) by (nonlinear_arith)
            requires
                fewer.len() + 1 == images.len(),
        ;
    }
}

/// The records of a payload are the images it was made from, when each of
/// them has `image_size` bytes.
pub proof fn lemma_records_round_trip(images: Seq<(Seq<u8>, Label)>, image_size: nat)
    requires
        forall|i: int| 0 <= i < images.len() ==> (#[trigger] images[i]).0.len() == image_size,
    ensures
        parse_records(payload_bytes(images), image_size) == images,
{
    let step = record_len(image_size);
    let payload = payload_bytes(images);
    let records = parse_records(payload, image_size);
    lemma_payload_len(images, image_size);
    assert((images.len() * step) / step == images.len()) by (nonlinear_arith)
        requires
            step > 0,
    ;
    assert(records.len() == images.len());
    assert forall|at: int| 0 <= at < images.len() implies records[at] == images[at] by {
        lemma_payload_records(images, image_size, at);
        let start = at * step;
        let record = payload.subrange(start, start + step);
        assert((at + 1) * step == start + step) by (nonlinear_arith)
            requires
                start == at * step,
        ;
        assert(record == record_bytes(images[at]));
        lemma_le_bytes_len(images[at].1 as nat, 2);
        lemma_radix_values();
        lemma_le_value_of_le_bytes(images[at].1 as nat, 2);
        assert(payload.subrange(start, start + image_size) =~= record.subrange(
            0,
            image_size as int,
        ));
        assert(record.subrange(0, image_size as int) =~= images[at].0);
        assert(payload.subrange(start + image_size, start + step) =~= record.subrange(
            image_size as int,
            step as int,
        ));
        assert(record.subrange(image_size as int, step as int) =~= le_bytes(
            images[at].1 as nat,
            2,
        ));
    }
    assert(records =~= images);
}

/// The file of a well-formed dataset whose class names are storable is read
/// back as the same dataset, whenever the compressed payload in it is one
/// that inflates to the payload of the dataset.
pub proof fn lemma_file_round_trip(dataset: DatasetView, packed: Seq<u8>)
    requires
        dataset.wf(),
        dataset.header.storable(),
        packed.len() <= u64::MAX,
        inflated(packed) == Ok::<Seq<u8>, std::io::ErrorKind>(dataset.payload()),
    ensures
        DatasetView::parse(dataset.framed(packed)) == Ok::<DatasetView, Error>(dataset),
{
    let head = dataset.header.to_bytes();
    let length = le_bytes(packed.len(), 8);
    let bytes = dataset.framed(packed);
    let used = head.len() as int;
    lemma_le_bytes_len(packed.len(), 8);
    lemma_radix_values();
    lemma_le_value_of_le_bytes(packed.len(), 8);
    assert(bytes =~= head + (length + packed));
    dataset.header.lemma_round_trip(length + packed);
    assert(bytes.subrange(used, used + 8) =~= length);
    assert(bytes.subrange(used + 8, used + 8 + packed.len()) =~= packed);
    assert(DatasetView::parse_frame(bytes) == Ok::<(HeaderView, Seq<u8>), Error>(
        (dataset.header, packed),
    ));
    lemma_records_round_trip(dataset.images, dataset.header.image_size());
}

impl Dataset {
    /// The payload of the dataset, before compression.
    pub fn payload(&self) -> (payload: Vec<u8>)
        ensures
            payload@ == self@.payload(),
    {
        let mut payload: Vec<u8> = Vec::new();
        let count = self.len();
        let mut i: usize = 0;
        assert(self@.images.take(0) =~= Seq::<(Seq<u8>, Label)>::empty());
        while i < count
            invariant
                i <= count,
                count == self@.images.len(),
                payload@ == payload_bytes(self@.images.take(i as int)),
            decreases count - i,
        {
            match self.get(i) {
                Some(image) => {
                    append_bytes(&mut payload, &image.0);
                    put_u16(&mut payload, image.1);
                },
                None => {},
            }
            proof {
                let done = self@.images.take(i + 1);
                assert(done.drop_last() =~= self@.images.take(i as int));
                assert(done.last() == self@.images[i as int]);
                assert(payload@ =~= payload_bytes(done.drop_last()) + record_bytes(done.last()));
            }
            i += 1;
        }
        assert(self@.images.take(i as int) =~= self@.images);
        payload
    }

    /// Makes the dataset of a header and a payload.
    ///
    /// The payload is cut into records of one image and one label each. A
    /// label that names no class of the header makes the payload corrupt.
    pub fn from_payload(header: Header, payload: &[u8]) -> (result: Result<Dataset, Error>)
        ensures
            match result {
                Ok(dataset) => DatasetView::from_payload(header@, payload@) == Ok::<
                    DatasetView,
                    Error,
                >(dataset@),
                Err(error) => DatasetView::from_payload(header@, payload@) == Err::<
                    DatasetView,
                    Error,
                >(error),
            },
    {
        let size = header.image_size_u64();
        let step = size + 2;
        let total = payload.len();
        let count = total as u64 / step;
        let ghost records = parse_records(payload@, size as nat);
        let mut images: Vec<LabeledImage> = Vec::new();
        let mut start: usize = 0;
        let mut i: u64 = 0;
        proof {
            assert(count * step <= total) by (nonlinear_arith)
                requires
                    count == total as u64 / step,
                    step > 0,
            ;
            assert(0 * step == 0) by (nonlinear_arith);
        }
        while i < count
            invariant
                i <= count,
                size == header@.image_size(),
                step == size + 2,
                total == payload@.len(),
                count == records.len(),
                count * step <= total,
                start == i * step,
                records == parse_records(payload@, size as nat),
                images@.len() == i,
                forall|k: int|
                    0 <= k < i ==> (images@[k].0@, images@[k].1) == #[trigger] records[k]
                        && records[k].1 < header@.classes.len(),
            decreases count - i,
        {
            proof {
                assert((i + 1) * step == i * step + step && (i + 1) * step <= count * step)
                    by (nonlinear_arith)
                    requires
                        i + 1 <= count,
                        0 <= step,
                ;
            }
            let size = size as usize;
            let bytes = slice_to_vec(slice_subrange(payload, start, start + size));
            let label = get_u16(payload, start + size);
            assert((bytes@, label) == records[i as int]);
            if label as usize >= header.classes.len() {
                return Err(Error::CorruptFile);
            }
            images.push((into_boxed(bytes), label));
            start = start + step as usize;
            i += 1;
        }
        assert(images_of(images@) =~= records);
        Ok(Dataset::from_parts(header, images))
    }

    /// The bytes of the file of this dataset, for a payload compressed to
    /// `packed`.
    pub fn frame(&self, packed: &[u8]) -> (bytes: Vec<u8>)
        requires
            self@.header.encodable(),
        ensures
            bytes@ == self@.framed(packed@),
    {
        let mut bytes: Vec<u8> = Vec::new();
        self.get_header().write_to_bytes(&mut bytes);
        put_u64(&mut bytes, packed.len() as u64);
        append_bytes(&mut bytes, packed);
        assert(bytes@ =~= self@.framed(packed@));
        bytes
    }

    /// Takes the bytes of a file apart into the header and the compressed
    /// payload.
    pub fn split_frame<'a>(bytes: &'a [u8]) -> (result: Result<(Header, &'a [u8]), Error>)
        ensures
            match result {
                Ok((header, packed)) => DatasetView::parse_frame(bytes@) == Ok::<
                    (HeaderView, Seq<u8>),
                    Error,
                >((header@, packed@)),
                Err(error) => DatasetView::parse_frame(bytes@) == Err::<
                    (HeaderView, Seq<u8>),
                    Error,
                >(error),
            },
    {
        let (header, used) = match Header::read_prefix(bytes) {
            Ok(parts) => parts,
            Err(error) => {
                return Err(error);
            },
        };
        let rest = bytes.len() - used;
        if rest < 8 {
            return Err(Error::Io(std::io::ErrorKind::UnexpectedEof));
        }
        let packed_len = get_u64(bytes, used);
        if ((rest - 8) as u64) < packed_len {
            return Err(Error::Io(std::io::ErrorKind::UnexpectedEof));
        }
        let packed = slice_subrange(bytes, used + 8, used + 8 + packed_len as usize);
        Ok((header, packed))
    }

    /// Reads a dataset from the bytes of a file.
    ///
    /// The result is the dataset that the bytes hold, or the first failure:
    /// a header that cannot be read, a stream that ends early, a payload
    /// that does not inflate, a label that names no class.
    pub fn read_from_bytes(bytes: &[u8]) -> (result: Result<Dataset, Error>)
        ensures
            match result {
                Ok(dataset) => DatasetView::parse(bytes@) == Ok::<DatasetView, Error>(dataset@),
                Err(error) => DatasetView::parse(bytes@) == Err::<DatasetView, Error>(error),
            },
    {
        let (header, packed) = match Dataset::split_frame(bytes) {
            Ok(parts) => parts,
            Err(error) => {
                return Err(error);
            },
        };
        match inflate(packed) {
            Ok(payload) => Dataset::from_payload(header, payload.as_slice()),
            Err(kind) => Err(Error::Io(kind)),
        }
    }

    /// Writes the dataset as the bytes of a file.
    ///
    /// The result is the header, the length of the compressed payload and
    /// the compressed payload, or the failure of the compression. Reading
    /// the bytes gives the dataset back, if it is well-formed and its class
    /// names are storable.
    pub fn write_to_bytes(&self) -> (result: Result<Vec<u8>, Error>)
        requires
            self@.header.encodable(),
        ensures
            match result {
                Ok(bytes) => self@.to_bytes() == Ok::<Seq<u8>, Error>(bytes@),
                Err(error) => self@.to_bytes() == Err::<Seq<u8>, Error>(error),
            },
            self@.wf() && self@.header.storable() ==> (result matches Ok(bytes)
                ==> DatasetView::parse(bytes@) == Ok::<DatasetView, Error>(self@)),
    {
        let payload = self.payload();
        match deflate(payload.as_slice()) {
            Ok(packed) => {
                let bytes = self.frame(packed.as_slice());
                proof {
                    assert(packed@.len() == packed.len());
                    if self@.wf() && self@.header.storable() {
                        lemma_file_round_trip(self@, packed@);
                    }
                }
                Ok(bytes)
            },
            Err(kind) => Err(Error::Io(kind)),
        }
    }
}

} // verus!
