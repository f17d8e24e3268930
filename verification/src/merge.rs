//! What it means to add images to a dataset when their classes are numbered
//! by another class table.
//!
//! The images are taken one by one. The name of an image's class is looked
//! up in the growing class table of the receiving dataset; a name that is not
//! there yet is added at the end. The image's label becomes the position of
//! the name in that table.

use vstd::prelude::*;
use vstd::utf8::encode_utf8;
use crate::classes::{
    has_name, index_of, lemma_index_of, lemma_index_of_own, lemma_with_name, with_name,
    MAX_CLASSES, MAX_NAME_BYTES,
};
use crate::dataset::{DatasetView, Label};
use crate::error::Error;
use crate::header::HeaderView;

verus! {

/// The class table `base` after the class names of `images` have been looked
/// up in it, in order. The labels of `images` are positions in `names`.
pub open spec fn merged_names(
    base: Seq<Seq<char>>,
    names: Seq<Seq<char>>,
    images: Seq<(Seq<u8>, Label)>,
) -> Seq<Seq<char>>
    decreases images.len(),
{
    if images.len() == 0 {
        base
    } else {
        with_name(merged_names(base, names, images.drop_last()), names[images.last().1 as int])
    }
}

/// `images` with each label replaced by the position that the name of its
/// class, taken from `from`, has in `to`.
pub open spec fn relabeled(
    images: Seq<(Seq<u8>, Label)>,
    from: Seq<Seq<char>>,
    to: Seq<Seq<char>>,
) -> Seq<(Seq<u8>, Label)> {
    Seq::new(images.len(), |i: int| (images[i].0, index_of(to, from[images[i].1 as int]) as Label))
}

/// What a call reports when `error` says why it failed, if it did.
pub open spec fn outcome(error: Option<Error>) -> Result<(), Error> {
    match error {
        Some(error) => Err(error),
        None => Ok(()),
    }
}

impl DatasetView {
    /// The class table that this dataset has once every image of `other` has
    /// found its class in it.
    pub open spec fn names_with(self, other: DatasetView) -> Seq<Seq<char>> {
        merged_names(self.header.classes, other.header.classes, other.images)
    }

    /// Why `other` cannot be appended to this dataset, if it cannot: the
    /// images differ in width, height or bit depth, or the class table would
    /// grow past its limit.
    pub open spec fn append_error(self, other: DatasetView) -> Option<Error> {
        if !self.header.compatible_with(other.header) {
            Some(Error::IncompatibleDimensions)
        } else if self.names_with(other).len() > MAX_CLASSES {
            Some(Error::ClassLimitExceeded)
        } else {
            None
        }
    }

    /// This dataset after an attempt to append `other`.
    ///
    /// When the images are incompatible nothing changes. When the class table
    /// would grow past its limit the images and their count stay, and the
    /// class table holds the names that found room before the limit was
    /// reached. Otherwise the images of `other` follow those of this dataset,
    /// with their labels given by the merged class table.
    pub open spec fn after_append(self, other: DatasetView) -> DatasetView {
        let names = self.names_with(other);
        match self.append_error(other) {
            Some(Error::ClassLimitExceeded) => DatasetView {
                header: HeaderView { classes: names.subrange(0, MAX_CLASSES as int), ..self.header },
                images: self.images,
            },
            Some(_) => self,
            None => DatasetView {
                header: HeaderView {
                    classes: names,
                    image_count: (self.header.image_count + other.header.image_count) as u64,
                    ..self.header
                },
                images: self.images + relabeled(other.images, other.header.classes, names),
            },
        }
    }

    /// Why an image of the given bytes and class name cannot be pushed, if it
    /// cannot: the bytes are not one image long, the name is too long, or
    /// the name is new and the class table is full.
    pub open spec fn push_error(self, image: Seq<u8>, name: Seq<char>) -> Option<Error> {
        if image.len() != self.header.image_size() {
            Some(Error::IncompatibleDimensions)
        } else if encode_utf8(name).len() > MAX_NAME_BYTES {
            Some(Error::ClassLengthLimitExceeded)
        } else if !has_name(self.header.classes, name) && self.header.classes.len()
            >= MAX_CLASSES {
            Some(Error::ClassLimitExceeded)
        } else {
            None
        }
    }

    /// This dataset after an attempt to push an image of the given bytes and
    /// class name: unchanged when the push fails, else with the name in the
    /// class table and the image, labeled by the position of the name, at the
    /// end.
    pub open spec fn after_push(self, image: Seq<u8>, name: Seq<char>) -> DatasetView {
        if self.push_error(image, name) is Some {
            self
        } else {
            DatasetView {
                header: HeaderView {
                    classes: with_name(self.header.classes, name),
                    image_count: (self.header.image_count + 1) as u64,
                    ..self.header
                },
                images: self.images.push(
                    (image, index_of(self.header.classes, name) as Label),
                ),
            }
        }
    }
}

/// Looking up more images only ever adds names at the end: the table for the
/// first `count` images is the front of the table for all of them.
pub proof fn lemma_merged_names_grow(
    base: Seq<Seq<char>>,
    names: Seq<Seq<char>>,
    images: Seq<(Seq<u8>, Label)>,
    count: int,
)
    requires
        0 <= count <= images.len(),
    ensures
        merged_names(base, names, images.take(count)).len() <= merged_names(
            base,
            names,
            images,
        ).len(),
        merged_names(base, names, images).subrange(
            0,
            merged_names(base, names, images.take(count)).len() as int,
        ) == merged_names(base, names, images.take(count)),
    decreases images.len(),
{
    let all = merged_names(base, names, images);
    let part = merged_names(base, names, images.take(count));
    if count == images.len() {
        assert(images.take(count) =~= images);
        assert(all.subrange(0, all.len() as int) =~= all);
    } else {
        let fewer = images.drop_last();
        let before = merged_names(base, names, fewer);
        lemma_merged_names_grow(base, names, fewer, count);
        assert(fewer.take(count) =~= images.take(count));
        lemma_with_name(before, names[images.last().1 as int]);
        assert(all.subrange(0, part.len() as int) =~= before.subrange(0, part.len() as int));
    }
}

/// A class table without repetition stays without repetition, and it keeps
/// its entries where they were.
pub proof fn lemma_merged_names_distinct(
    base: Seq<Seq<char>>,
    names: Seq<Seq<char>>,
    images: Seq<(Seq<u8>, Label)>,
)
    requires
        base.no_duplicates(),
    ensures
        merged_names(base, names, images).no_duplicates(),
        base.len() <= merged_names(base, names, images).len() <= base.len() + images.len(),
        merged_names(base, names, images).subrange(0, base.len() as int) == base,
    decreases images.len(),
{
    let all = merged_names(base, names, images);
    if images.len() == 0 {
        assert(all.subrange(0, base.len() as int) =~= base);
    } else {
        let before = merged_names(base, names, images.drop_last());
        lemma_merged_names_distinct(base, names, images.drop_last());
        lemma_with_name(before, names[images.last().1 as int]);
        assert(all.subrange(0, base.len() as int) =~= before.subrange(0, base.len() as int));
    }
}

/// After the merge the class of every image is in the table.
pub proof fn lemma_merged_names_hold(
    base: Seq<Seq<char>>,
    names: Seq<Seq<char>>,
    images: Seq<(Seq<u8>, Label)>,
    at: int,
)
    requires
        0 <= at < images.len(),
    ensures
        has_name(merged_names(base, names, images), names[images[at].1 as int]),
    decreases images.len(),
{
    let before = merged_names(base, names, images.drop_last());
    let last = names[images.last().1 as int];
    lemma_with_name(before, last);
    if at < images.len() - 1 {
        lemma_merged_names_hold(base, names, images.drop_last(), at);
        let name = names[images[at].1 as int];
        assert(images.drop_last()[at] == images[at]);
        lemma_index_of(before, name);
        lemma_index_of(with_name(before, last), name);
    }
}

/// After the merge the class of every image stands in the table exactly
/// once, when the table had no repetition before: the only position with
/// its name is the one that its label gets.
pub proof fn lemma_merged_names_once(
    base: Seq<Seq<char>>,
    names: Seq<Seq<char>>,
    images: Seq<(Seq<u8>, Label)>,
    at: int,
)
    requires
        base.no_duplicates(),
        0 <= at < images.len(),
    ensures
        has_name(merged_names(base, names, images), names[images[at].1 as int]),
        forall|i: int|
            0 <= i < merged_names(base, names, images).len() && merged_names(
                base,
                names,
                images,
            )[i] == names[images[at].1 as int] ==> i == index_of(
                merged_names(base, names, images),
                names[images[at].1 as int],
            ),
{
    let all = merged_names(base, names, images);
    let name = names[images[at].1 as int];
    lemma_merged_names_hold(base, names, images, at);
    lemma_merged_names_distinct(base, names, images);
    lemma_index_of(all, name);
}

/// A name that the table holds is not added again: looking up images whose
/// classes are all in the table leaves the table as it is.
pub proof fn lemma_merged_names_known(
    base: Seq<Seq<char>>,
    names: Seq<Seq<char>>,
    images: Seq<(Seq<u8>, Label)>,
)
    requires
        forall|i: int| 0 <= i < images.len() ==> has_name(base, names[(#[trigger] images[i]).1 as int]),
    ensures
        merged_names(base, names, images) == base,
    decreases images.len(),
{
    if images.len() > 0 {
        let fewer = images.drop_last();
        assert forall|i: int| 0 <= i < fewer.len() implies has_name(
            base,
            names[(#[trigger] fewer[i]).1 as int],
        ) by {
            assert(fewer[i] == images[i]);
        }
        lemma_merged_names_known(base, names, fewer);
        assert(has_name(base, names[images[images.len() - 1].1 as int]));
    }
}

/// Merging is stable: once the classes of some images are in the table,
/// merging the same images again changes nothing in it.
pub proof fn lemma_merge_is_stable(
    base: Seq<Seq<char>>,
    names: Seq<Seq<char>>,
    images: Seq<(Seq<u8>, Label)>,
)
    ensures
        merged_names(merged_names(base, names, images), names, images) == merged_names(
            base,
            names,
            images,
        ),
{
    let once = merged_names(base, names, images);
    assert forall|i: int| 0 <= i < images.len() implies has_name(
        once,
        names[(#[trigger] images[i]).1 as int],
    ) by {
        lemma_merged_names_hold(base, names, images, i);
    }
    lemma_merged_names_known(once, names, images);
}

/// Appending a well-formed dataset to itself succeeds, leaves the class
/// table as it is, and doubles the images: every record occurs a second
/// time, in the same order, behind the first ones.
pub proof fn lemma_append_to_itself(dataset: DatasetView)
    requires
        dataset.wf(),
        2 * dataset.header.image_count <= u64::MAX,
    ensures
        dataset.append_error(dataset) is None,
        dataset.after_append(dataset).header.classes == dataset.header.classes,
        dataset.after_append(dataset).header.image_count == 2 * dataset.header.image_count,
        dataset.after_append(dataset).images == dataset.images + dataset.images,
        dataset.after_append(dataset).wf(),
{
    let names = dataset.header.classes;
    let images = dataset.images;
    assert forall|i: int| 0 <= i < images.len() implies has_name(
        names,
        names[(#[trigger] images[i]).1 as int],
    ) by {
        lemma_index_of_own(names, images[i].1 as int);
    }
    lemma_merged_names_known(names, names, images);
    assert forall|i: int| 0 <= i < images.len() implies relabeled(images, names, names)[i]
        == images[i] by {
        lemma_index_of_own(names, images[i].1 as int);
    }
    assert(relabeled(images, names, names) =~= images);
    let after = dataset.after_append(dataset);
    assert forall|i: int| 0 <= i < after.images.len() implies (#[trigger] after.images[i]).0.len()
        == after.header.image_size() && after.images[i].1 < after.header.classes.len() by {
        if i < images.len() {
            assert(after.images[i] == images[i]);
        } else {
            assert(after.images[i] == images[i - images.len()]);
        }
    }
}

/// Appending keeps the invariant of the receiving dataset, whether it
/// succeeds or fails.
pub proof fn lemma_append_keeps_wf(dataset: DatasetView, other: DatasetView)
    requires
        dataset.wf(),
        other.wf(),
        dataset.append_error(other) is None ==> dataset.images.len() + other.images.len()
            <= u64::MAX,
    ensures
        dataset.after_append(other).wf(),
{
    let base = dataset.header.classes;
    let names = other.header.classes;
    let all = dataset.names_with(other);
    let after = dataset.after_append(other);
    lemma_merged_names_distinct(base, names, other.images);
    lemma_merged_names_bytes(base, names, other.images);
    match dataset.append_error(other) {
        Some(Error::ClassLimitExceeded) => {
            let kept = all.subrange(0, MAX_CLASSES as int);
            assert(kept.subrange(0, base.len() as int) =~= all.subrange(0, base.len() as int));
            assert forall|i: int| 0 <= i < dataset.images.len() implies (
            #[trigger] after.images[i]).1 < kept.len() by {}
        },
        Some(_) => {},
        None => {
            let added = relabeled(other.images, names, all);
            assert forall|i: int| 0 <= i < after.images.len() implies (
            #[trigger] after.images[i]).0.len() == after.header.image_size() && after.images[i].1
                < after.header.classes.len() by {
                if i < dataset.images.len() {
                    assert(after.images[i] == dataset.images[i]);
                } else {
                    let k = i - dataset.images.len();
                    assert(after.images[i] == added[k]);
                    lemma_merged_names_hold(base, names, other.images, k);
                    lemma_index_of(all, names[other.images[k].1 as int]);
                }
            }
        },
    }
}

/// Every name of the merged table comes from one of the two tables, so no
/// name in it is longer than the names of both.
pub proof fn lemma_merged_names_bytes(
    base: Seq<Seq<char>>,
    names: Seq<Seq<char>>,
    images: Seq<(Seq<u8>, Label)>,
)
    requires
        forall|i: int| 0 <= i < base.len() ==> encode_utf8(#[trigger] base[i]).len() <= MAX_NAME_BYTES,
        forall|i: int|
            0 <= i < names.len() ==> encode_utf8(#[trigger] names[i]).len() <= MAX_NAME_BYTES,
        forall|i: int| 0 <= i < images.len() ==> (#[trigger] images[i]).1 < names.len(),
    ensures
        forall|i: int|
            0 <= i < merged_names(base, names, images).len() ==> encode_utf8(
                #[trigger] merged_names(base, names, images)[i],
            ).len() <= MAX_NAME_BYTES,
    decreases images.len(),
{
    if images.len() > 0 {
        let fewer = images.drop_last();
        assert forall|i: int| 0 <= i < fewer.len() implies (#[trigger] fewer[i]).1
            < names.len() by {
            assert(fewer[i] == images[i]);
        }
        lemma_merged_names_bytes(base, names, fewer);
        let before = merged_names(base, names, fewer);
        let last = names[images.last().1 as int];
        assert(images[images.len() - 1].1 < names.len());
        let all = merged_names(base, names, images);
        assert forall|i: int| 0 <= i < all.len() implies encode_utf8(#[trigger] all[i]).len()
            <= MAX_NAME_BYTES by {
            if i < before.len() {
                assert(all[i] == before[i]);
            } else {
                assert(all[i] == last);
            }
        }
    }
}

/// Pushing keeps the invariant of the dataset, whether it succeeds or fails.
pub proof fn lemma_push_keeps_wf(dataset: DatasetView, image: Seq<u8>, name: Seq<char>)
    requires
        dataset.wf(),
        dataset.images.len() < u64::MAX,
    ensures
        dataset.after_push(image, name).wf(),
{
    let after = dataset.after_push(image, name);
    if dataset.push_error(image, name) is None {
        let names = dataset.header.classes;
        lemma_with_name(names, name);
        lemma_index_of(names, name);
        let grown = with_name(names, name);
        assert forall|i: int| 0 <= i < grown.len() implies encode_utf8(#[trigger] grown[i]).len()
            <= MAX_NAME_BYTES by {
            if i < names.len() {
                assert(grown[i] == names[i]);
            }
        }
        assert forall|i: int| 0 <= i < after.images.len() implies (#[trigger] after.images[i]).0.len()
            == after.header.image_size() && after.images[i].1 < after.header.classes.len() by {
            if i < dataset.images.len() {
                assert(after.images[i] == dataset.images[i]);
            }
        }
    }
}

} // verus!
