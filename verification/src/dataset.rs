//! The dataset: a header and the labeled images it describes.

use std::collections::HashMap;
use vstd::prelude::*;
use vstd::slice::slice_to_vec;
use vstd::std_specs::iter::IteratorSpec;
use crate::classes::{
    find_class, has_name, index_of, lemma_index_of, lemma_with_name, with_name, MAX_CLASSES,
    MAX_NAME_BYTES,
};
use crate::error::Error;
use crate::header::{Header, HeaderView};
use crate::merge::{
    lemma_append_keeps_wf, lemma_merged_names_grow, lemma_push_keeps_wf, merged_names, outcome,
    relabeled,
};
use crate::table::names_of;

verus! {

/// The position of a class in the class table of a header.
pub type Label = u16;

/// The bytes of one image and the label of its class.
pub type LabeledImage = (Box<[u8]>, Label);

/// `core::slice::IterMut`, the iterator that hands out each element of a
/// slice for writing.
#[verifier::external_type_specification]
#[verifier::external_body]
#[verifier::reject_recursive_types(T)]
pub struct ExIterMut<'a, T: 'a>(core::slice::IterMut<'a, T>);

/// `Vec::into_boxed_slice`: the box holds the elements of the vector, in
/// their order.
#[verifier::external_body]
pub(crate) fn into_boxed(bytes: Vec<u8>) -> (boxed: Box<[u8]>)
    ensures
        boxed@ == bytes@,
{
    bytes.into_boxed_slice()
}

/// A header with labeled images, in the order in which they were added or
/// read.
#[derive(Debug, PartialEq, Eq)]
pub struct Dataset {
    header: Header,
    images: Vec<LabeledImage>,
}

/// A dataset as a mathematical value: each image is its bytes and its label.
pub struct DatasetView {
    pub header: HeaderView,
    pub images: Seq<(Seq<u8>, Label)>,
}

/// The images of a vector as mathematical values.
pub open spec fn images_of(images: Seq<LabeledImage>) -> Seq<(Seq<u8>, Label)> {
    Seq::new(images.len(), |i: int| (images[i].0@, images[i].1))
}

impl View for Dataset {
    type V = DatasetView;

    closed spec fn view(&self) -> DatasetView {
        DatasetView { header: self.header@, images: images_of(self.images@) }
    }
}

impl DatasetView {
    /// The invariant of a dataset: the header keeps its own invariant and
    /// counts the images, every image has the size that the header gives,
    /// and every label names a class of the header.
    pub open spec fn wf(self) -> bool {
        &&& self.header.wf()
        &&& self.header.image_count == self.images.len()
        &&& forall|i: int|
            0 <= i < self.images.len() ==> (#[trigger] self.images[i]).0.len()
                == self.header.image_size()
        &&& forall|i: int|
            0 <= i < self.images.len() ==> (#[trigger] self.images[i]).1
                < self.header.classes.len()
    }
}

impl Clone for Dataset {
    fn clone(&self) -> (copy: Self)
        ensures
            copy@ == self@,
    {
        let mut images: Vec<LabeledImage> = Vec::new();
        let mut i: usize = 0;
        while i < self.images.len()
            invariant
                i <= self.images.len(),
                images@.len() == i,
                forall|k: int|
                    0 <= k < i ==> images@[k].0@ == self.images@[k].0@ && images@[k].1
                        == self.images@[k].1,
            decreases self.images.len() - i,
        {
            let bytes = slice_to_vec(&self.images[i].0);
            images.push((into_boxed(bytes), self.images[i].1));
            i += 1;
        }
        assert(images_of(images@) =~= images_of(self.images@));
        Dataset { header: self.header.clone(), images }
    }
}

impl Dataset {
    /// A dataset with the given header and no images.
    pub fn with_header(header: Header) -> (dataset: Dataset)
        ensures
            dataset@.header == header@,
            dataset@.images == Seq::<(Seq<u8>, Label)>::empty(),
    {
        let dataset = Dataset { header, images: Vec::new() };
        assert(dataset@.images =~= Seq::<(Seq<u8>, Label)>::empty());
        dataset
    }

    /// A dataset with the given header and images.
    pub(crate) fn from_parts(header: Header, images: Vec<LabeledImage>) -> (dataset: Dataset)
        ensures
            dataset@.header == header@,
            dataset@.images == images_of(images@),
    {
        Dataset { header, images }
    }

    /// The image at `index` with its label, if there is one.
    pub fn get(&self, index: usize) -> (found: Option<&LabeledImage>)
        ensures
            found is Some <==> index < self@.images.len(),
            found matches Some(image) ==> (image.0@, image.1) == self@.images[index as int],
    {
        if index < self.images.len() {
            Some(&self.images[index])
        } else {
            None
        }
    }

    /// The image at `index` with its label, for writing, if there is one.
    ///
    /// What the caller writes through the reference is what the dataset
    /// holds afterwards at `index`; nothing else changes. The invariant of the
    /// dataset is the caller's to keep.
    pub fn get_mut(&mut self, index: usize) -> (found: Option<&mut LabeledImage>)
        ensures
            found is Some <==> index < old(self)@.images.len(),
            final(self)@.header == old(self)@.header,
            match found {
                Some(image) => {
                    &&& (image.0@, image.1) == old(self)@.images[index as int]
                    &&& final(self)@.images == old(self)@.images.update(
                        index as int,
                        (final(image).0@, final(image).1),
                    )
                },
                None => final(self)@.images == old(self)@.images,
            },
    {
        if index < self.images.len() {
            Some(&mut self.images[index])
        } else {
            None
        }
    }

    /// The header.
    pub fn get_header(&self) -> (header: &Header)
        ensures
            header@ == self@.header,
    {
        &self.header
    }

    /// The number of images.
    pub fn len(&self) -> (count: usize)
        ensures
            count == self@.images.len(),
    {
        self.images.len()
    }

    /// The images with their labels, from first to last.
    pub fn iter(&self) -> (images: core::slice::Iter<'_, LabeledImage>)
        ensures
            images.remaining().len() == self@.images.len(),
            forall|i: int|
                0 <= i < self@.images.len() ==> ((#[trigger] images.remaining()[i]).0@, images.remaining()[i].1)
                    == self@.images[i],
    {
        let images = self.images.iter();
        proof {
            broadcast use vstd::std_specs::slice::axiom_spec_slice_iter;
            assert(self.images@.as_ref().len() == self.images@.len());
        }
        images
    }

    /// Whether the dataset keeps its invariant.
    pub fn is_valid(&self) -> (valid: bool)
        ensures
            valid == self@.wf(),
    {
        if !self.header.is_valid() {
            return false;
        }
        if self.images.len() as u64 != self.header.image_count {
            return false;
        }
        let size = self.header.image_size_u64();
        let mut i: usize = 0;
        while i < self.images.len()
            invariant
                i <= self.images.len(),
                size == self@.header.image_size(),
                forall|k: int|
                    0 <= k < i ==> (#[trigger] self@.images[k]).0.len() == size
                        && self@.images[k].1 < self@.header.classes.len(),
            decreases self.images.len() - i,
        {
            if self.images[i].0.len() as u64 != size || self.images[i].1 as usize
                >= self.header.classes.len() {
                assert(self@.images[i as int].0.len() != size || self@.images[i as int].1
                    >= self@.header.classes.len());
                return false;
            }
            i += 1;
        }
        true
    }

    /// Adds one image, labeled with the class of the given name.
    ///
    /// The name is looked up among the classes of the header and added at
    /// their end if it is new. On failure the dataset is unchanged.
    pub fn push(&mut self, raw_image: Box<[u8]>, class_name: &str) -> (result: Result<(), Error>)
        requires
            old(self)@.wf(),
        ensures
            result == outcome(old(self)@.push_error(raw_image@, class_name@)),
            final(self)@ == old(self)@.after_push(raw_image@, class_name@),
            final(self)@.wf(),
    {
        if raw_image.len() as u64 != self.header.image_size_u64() {
            return Err(Error::IncompatibleDimensions);
        }
        if class_name.as_bytes().len() > MAX_NAME_BYTES {
            return Err(Error::ClassLengthLimitExceeded);
        }
        let name = class_name.to_owned();
        let ghost names = old(self)@.header.classes;
        proof {
            lemma_index_of(names, name@);
            lemma_with_name(names, name@);
        }
        let label = match find_class(&self.header.classes, &name) {
            Some(at) => at,
            None => {
                if self.header.classes.len() >= MAX_CLASSES {
                    return Err(Error::ClassLimitExceeded);
                }
                self.header.classes.push(name);
                assert(names_of(self.header.classes@) =~= names.push(class_name@));
                self.header.classes.len() - 1
            },
        };
        self.images.push((raw_image, label as Label));
        assert(self.images.len() == self.images@.len());
        self.header.image_count = self.header.image_count + 1;
        proof {
            assert(self@.images =~= old(self)@.after_push(raw_image@, class_name@).images);
            lemma_push_keeps_wf(old(self)@, raw_image@, class_name@);
        }
        Ok(())
    }

    /// Adds the images of `other`, giving each the label that the name of
    /// its class has, or gets, among the classes of this dataset.
    ///
    /// When the images of the two datasets differ in width, height or bit
    /// depth, nothing changes. When the class table would grow past its
    /// limit, no image is added, but the names that found room stay in the
    /// class table.
    pub fn append(&mut self, other: Dataset) -> (result: Result<(), Error>)
        requires
            old(self)@.wf(),
            other@.wf(),
        ensures
            result == outcome(old(self)@.append_error(other@)),
            final(self)@ == old(self)@.after_append(other@),
            final(self)@.wf(),
    {
        if !self.header.is_compatible_with(&other.header) {
            return Err(Error::IncompatibleDimensions);
        }
        let ghost source = other@;
        let ghost base = old(self)@.header.classes;
        let ghost from = source.header.classes;
        let ghost given = source.images;
        let ghost all = merged_names(base, from, given);
        let mut incoming = other;
        let mut known: HashMap<Label, Label> = HashMap::new();
        let mut i: usize = 0;
        assert(given.take(0) =~= Seq::<(Seq<u8>, Label)>::empty());
        while i < incoming.images.len()
            invariant
                i <= incoming.images.len(),
                old(self)@.wf(),
                source == other@,
                source.wf(),
                old(self)@.header.compatible_with(source.header),
                base == old(self)@.header.classes,
                from == source.header.classes,
                given == source.images,
                all == merged_names(base, from, given),
                incoming.images@.len() == given.len(),
                incoming.header@ == source.header,
                self.images == old(self).images,
                self@.header == (HeaderView {
                    classes: merged_names(base, from, given.take(i as int)),
                    ..old(self)@.header
                }),
                self@.header.classes.len() <= MAX_CLASSES,
                forall|k: int|
                    i <= k < given.len() ==> (incoming.images@[k].0@, incoming.images@[k].1)
                        == #[trigger] given[k],
                forall|k: int|
                    0 <= k < i ==> {
                        &&& incoming.images@[k].0@ == (#[trigger] given[k]).0
                        &&& has_name(self@.header.classes, from[given[k].1 as int])
                        &&& incoming.images@[k].1 == index_of(
                            self@.header.classes,
                            from[given[k].1 as int],
                        )
                    },
                forall|label: Label| #[trigger]
                    known@.contains_key(label) ==> {
                        &&& label < from.len()
                        &&& has_name(self@.header.classes, from[label as int])
                        &&& known@[label] == index_of(self@.header.classes, from[label as int])
                    },
            decreases incoming.images.len() - i,
        {
            let label = incoming.images[i].1;
            let ghost names = self@.header.classes;
            let ghost name = from[label as int];
            proof {
                assert(given[i as int].1 == label);
                assert(label < from.len());
                assert(given.take(i + 1).drop_last() =~= given.take(i as int));
                assert(given.take(i + 1).last() == given[i as int]);
                assert(merged_names(base, from, given.take(i + 1)) == with_name(names, name));
                lemma_index_of(names, name);
                lemma_with_name(names, name);
            }
            let cached = match known.get(&label) {
                Some(mapped) => Some(*mapped),
                None => None,
            };
            let mapped: Label = match cached {
                Some(mapped) => mapped,
                None => {
                    let class_name = &incoming.header.classes[label as usize];
                    let at = match find_class(&self.header.classes, class_name) {
                        Some(at) => at,
                        None => {
                            if self.header.classes.len() >= MAX_CLASSES {
                                proof {
                                    lemma_merged_names_grow(base, from, given, i + 1);
                                    let grown = names.push(name);
                                    assert(grown.len() == MAX_CLASSES + 1);
                                    assert(all.subrange(0, grown.len() as int) == grown);
                                    assert(all.subrange(0, MAX_CLASSES as int) =~= names);
                                    assert(old(self)@.names_with(source) == all);
                                    assert(old(self)@.append_error(source) == Some(
                                        Error::ClassLimitExceeded,
                                    ));
                                    lemma_append_keeps_wf(old(self)@, source);
                                }
                                return Err(Error::ClassLimitExceeded);
                            }
                            self.header.classes.push(class_name.clone());
                            assert(names_of(self.header.classes@) =~= names.push(name));
                            self.header.classes.len() - 1
                        },
                    };
                    known.insert(label, at as Label);
                    at as Label
                },
            };
            incoming.images[i].1 = mapped;
            i += 1;
        }
        proof {
            assert(given.take(i as int) =~= given);
            assert(images_of(incoming.images@) =~= relabeled(given, from, all));
        }
        self.images.append(&mut incoming.images);
        proof {
            assert(self.images.len() == self.images@.len());
            assert(self@.images =~= old(self)@.images + relabeled(given, from, all));
            assert(old(self)@.names_with(source) == all);
            assert(old(self)@.append_error(source) is None);
            lemma_append_keeps_wf(old(self)@, source);
        }
        self.header.image_count = self.header.image_count + incoming.header.image_count;
        Ok(())
    }

    /// Adds the images of `other` as `append` does, and leaves `other` as it
    /// is.
    pub fn extend(&mut self, other: &Dataset) -> (result: Result<(), Error>)
        requires
            old(self)@.wf(),
            other@.wf(),
        ensures
            result == outcome(old(self)@.append_error(other@)),
            final(self)@ == old(self)@.after_append(other@),
            final(self)@.wf(),
    {
        self.append(other.clone())
    }

    /// The images with their labels, from first to last, for writing.
    ///
    /// `<[T]>::iter_mut` hands out the elements of the slice and nothing
    /// else: the header and the number of images stay as they are.
    #[verifier::external_body]
    pub fn iter_mut(&mut self) -> (images: core::slice::IterMut<'_, LabeledImage>)
        ensures
            final(self)@.header == old(self)@.header,
            final(self)@.images.len() == old(self)@.images.len(),
    {
        self.images.iter_mut()
    }
}

} // verus!
