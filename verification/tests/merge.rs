use jdx::{Dataset, Error, Header, Version};

fn header(classes: &[&str]) -> Header {
    Header {
        version: Version::V0,
        image_width: 2,
        image_height: 1,
        bit_depth: 8,
        image_count: 0,
        classes: classes.iter().map(|name| name.to_string()).collect(),
    }
}

fn image(a: u8, b: u8) -> Box<[u8]> {
    vec![a, b].into_boxed_slice()
}

fn dataset(items: &[(u8, &str)]) -> Dataset {
    let mut dataset = Dataset::with_header(header(&[]));
    for (seed, name) in items {
        dataset.push(image(*seed, seed.wrapping_add(1)), name).unwrap();
    }
    dataset
}

fn labels(dataset: &Dataset) -> Vec<u16> {
    dataset.iter().map(|image| image.1).collect()
}

fn numbered_classes(count: usize) -> Vec<String> {
    (0..count).map(|i| format!("class {i}")).collect()
}

#[test]
fn appending_a_new_class_to_dog_gives_dog_cat() {
    let mut base = Dataset::with_header(header(&["dog"]));
    let other = dataset(&[(1, "cat"), (2, "cat"), (3, "cat")]);
    assert_eq!(other.get_header().classes, vec!["cat"]);
    assert_eq!(labels(&other), vec![0, 0, 0]);

    base.append(other).unwrap();

    assert_eq!(base.get_header().classes, vec!["dog", "cat"]);
    assert_eq!(labels(&base), vec![1, 1, 1]);
    assert_eq!(base.get_header().image_count, 3);
    assert_eq!(base.len(), 3);
    assert!(base.is_valid());
}

#[test]
fn extending_a_dataset_by_itself_doubles_it() {
    let first = dataset(&[(1, "ant"), (2, "bee"), (3, "ant"), (4, "cat")]);
    let mut doubled = first.clone();
    doubled.extend(&first).unwrap();

    assert_eq!(doubled.get_header().classes, first.get_header().classes);
    assert_eq!(doubled.get_header().classes.len(), 3);
    assert_eq!(doubled.get_header().image_count, 8);
    assert_eq!(doubled.len(), 8);
    for i in 0..4 {
        assert_eq!(doubled.get(i), first.get(i));
        assert_eq!(doubled.get(i + 4), first.get(i));
    }
    assert_eq!(labels(&doubled), vec![0, 1, 0, 2, 0, 1, 0, 2]);
    assert!(doubled.is_valid());
}

#[test]
fn extend_leaves_its_argument_as_it_was() {
    let mut base = dataset(&[(1, "ant")]);
    let other = dataset(&[(5, "bee"), (6, "ant")]);
    let before = other.clone();
    base.extend(&other).unwrap();
    assert_eq!(other, before);
    assert_eq!(labels(&other), vec![0, 1]);
    assert_eq!(base.get_header().classes, vec!["ant", "bee"]);
    assert_eq!(labels(&base), vec![0, 1, 0]);
}

#[test]
fn labels_follow_names_not_numbers() {
    let mut base = dataset(&[(1, "ant"), (2, "bee"), (3, "cat")]);
    let other = dataset(&[(4, "cat"), (5, "dog"), (6, "ant"), (7, "dog"), (8, "cat")]);
    assert_eq!(labels(&other), vec![0, 1, 2, 1, 0]);

    base.append(other).unwrap();

    assert_eq!(base.get_header().classes, vec!["ant", "bee", "cat", "dog"]);
    assert_eq!(labels(&base), vec![0, 1, 2, 2, 3, 0, 3, 2]);
    assert_eq!(base.get(3).unwrap().0, image(4, 5));
    assert_eq!(base.get(7).unwrap().0, image(8, 9));
    assert_eq!(base.get_header().image_count, 8);
}

#[test]
fn a_known_class_is_never_entered_twice() {
    let mut base = dataset(&[(1, "ant"), (2, "bee")]);
    let other = dataset(&[(3, "bee"), (4, "bee"), (5, "ant")]);
    base.append(other).unwrap();
    assert_eq!(base.get_header().classes, vec!["ant", "bee"]);
    assert_eq!(labels(&base), vec![0, 1, 1, 1, 0]);
}

#[test]
fn repeated_merges_leave_the_class_table_alone() {
    let mut base = dataset(&[(1, "ant")]);
    let other = dataset(&[(2, "bee"), (3, "cat"), (4, "bee")]);

    base.extend(&other).unwrap();
    let classes = base.get_header().classes.clone();
    assert_eq!(classes, vec!["ant", "bee", "cat"]);

    base.extend(&other).unwrap();
    assert_eq!(base.get_header().classes, classes);
    base.extend(&other).unwrap();
    assert_eq!(base.get_header().classes, classes);

    assert_eq!(labels(&base), vec![0, 1, 2, 1, 1, 2, 1, 1, 2, 1]);
    assert_eq!(base.get_header().image_count, 10);
}

#[test]
fn class_names_are_compared_exactly() {
    let mut base = dataset(&[(1, "Cat")]);
    let other = dataset(&[(2, "cat"), (3, "Cat"), (4, "cat ")]);
    base.append(other).unwrap();
    assert_eq!(base.get_header().classes, vec!["Cat", "cat", "cat "]);
    assert_eq!(labels(&base), vec![0, 1, 0, 2]);
}

#[test]
fn appending_an_empty_dataset_changes_nothing() {
    let mut base = dataset(&[(1, "ant"), (2, "bee")]);
    let before = base.clone();
    let other = Dataset::with_header(header(&["unused", "names"]));
    base.append(other).unwrap();
    assert_eq!(base, before);
}

#[test]
fn unused_classes_of_the_other_dataset_are_not_taken_over() {
    let mut base = dataset(&[(1, "ant")]);
    let mut other = Dataset::with_header(header(&["idle", "bee"]));
    other.push(image(9, 9), "bee").unwrap();
    assert_eq!(labels(&other), vec![1]);
    base.append(other).unwrap();
    assert_eq!(base.get_header().classes, vec!["ant", "bee"]);
    assert_eq!(labels(&base), vec![0, 1]);
}

#[test]
fn incompatible_width_is_refused_without_change() {
    let mut base = dataset(&[(1, "ant")]);
    let before = base.clone();
    let mut wide = header(&[]);
    wide.image_width = 3;
    let other = Dataset::with_header(wide);
    assert!(matches!(base.append(other), Err(Error::IncompatibleDimensions)));
    assert_eq!(base, before);
}

#[test]
fn incompatible_height_is_refused_without_change() {
    let mut base = dataset(&[(1, "ant")]);
    let before = base.clone();
    let mut tall = header(&[]);
    tall.image_height = 2;
    let other = Dataset::with_header(tall);
    assert!(matches!(base.extend(&other), Err(Error::IncompatibleDimensions)));
    assert_eq!(base, before);
}

#[test]
fn incompatible_bit_depth_is_refused_without_change() {
    let mut base = dataset(&[(1, "ant")]);
    let before = base.clone();
    let mut deep = header(&["ant"]);
    deep.bit_depth = 16;
    let other = Dataset::with_header(deep);
    assert!(matches!(base.append(other), Err(Error::IncompatibleDimensions)));
    assert_eq!(base, before);
}

#[test]
fn a_full_class_table_takes_images_of_known_classes() {
    let mut full = header(&[]);
    full.classes = numbered_classes(65535);
    let mut base = Dataset::with_header(full);
    let mut other = Dataset::with_header(header(&[]));
    other.push(image(1, 2), "class 65534").unwrap();
    other.push(image(3, 4), "class 0").unwrap();
    base.append(other).unwrap();
    assert_eq!(base.get_header().classes.len(), 65535);
    assert_eq!(labels(&base), vec![65534, 0]);
}

#[test]
fn a_class_table_that_would_overflow_fails_the_append() {
    let mut nearly_full = header(&[]);
    nearly_full.classes = numbered_classes(65534);
    let mut base = Dataset::with_header(nearly_full);
    base.push(image(0, 0), "class 7").unwrap();

    let other = dataset(&[(1, "class 3"), (2, "first new"), (3, "first new"), (4, "second new"), (5, "third new")]);
    let result = base.append(other);

    assert!(matches!(result, Err(Error::ClassLimitExceeded)));
    let mut expected = numbered_classes(65534);
    expected.push("first new".to_string());
    assert_eq!(base.get_header().classes, expected);
    assert_eq!(base.len(), 1);
    assert_eq!(base.get_header().image_count, 1);
    assert_eq!(labels(&base), vec![7]);
}

#[test]
fn the_last_free_place_in_the_class_table_can_be_taken() {
    let mut nearly_full = header(&[]);
    nearly_full.classes = numbered_classes(65534);
    let mut base = Dataset::with_header(nearly_full);
    let other = dataset(&[(1, "the last one"), (2, "class 1"), (3, "the last one")]);
    base.append(other).unwrap();
    assert_eq!(base.get_header().classes.len(), 65535);
    assert_eq!(base.get_header().classes[65534], "the last one");
    assert_eq!(labels(&base), vec![65534, 1, 65534]);
}
