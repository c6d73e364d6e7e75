use cyclic_graph::{Content, SimpleContent};

#[test]
fn test_create_i32_simple_content() {
    let value = 1;
    let content = SimpleContent::new(value);
    assert_eq!(content.value(), value);
}

#[test]
fn test_create_string_simple_content() {
    let value = "one";
    let content = SimpleContent::new(value.to_string());
    assert_eq!(content.value(), value);
}

#[test]
fn test_create_vector_simple_content() {
    let value = vec![1_i32, 2, 3];
    let content = SimpleContent::new(value.clone());
    assert_eq!(&content.value().len(), &value.len());
    assert_eq!(&content.value()[0], &value[0]);
    assert_eq!(&content.value()[1], &value[1]);
    assert_eq!(&content.value()[2], &value[2]);
    assert!(!content.value().contains(&4));
}

#[test]
fn test_set_i32_simple_content() {
    let mut content = SimpleContent::<i32>::new(1);
    let new_value = 2;
    assert_eq!(content.set_value(new_value).unwrap(), 1);
    assert_eq!(content.value(), new_value);
}

#[test]
fn test_set_string_simple_content() {
    let mut content = SimpleContent::<String>::new("one".to_string());
    let new_value = "two".to_string();
    assert_eq!(content.set_value(new_value.clone()).unwrap(), "one");
    assert_eq!(content.value(), new_value);
}

#[test]
fn test_set_vector_simple_content() {
    let mut content = SimpleContent::<Vec<i32>>::new(vec![1, 2, 3]);
    let new_value = vec![4, 5, 6];
    assert_eq!(content.set_value(new_value.clone()).unwrap(), vec![1, 2, 3]);
    assert_eq!(&content.value().len(), &new_value.len());
    assert_eq!(&content.value()[0], &new_value[0]);
    assert_eq!(&content.value()[1], &new_value[1]);
    assert_eq!(&content.value()[2], &new_value[2]);
}

#[test]
fn simple_content_reads_back_what_was_written() {
    let mut content = SimpleContent::new(10_u8);
    assert_eq!(*content.content(), 10);
    assert_eq!(content.set_value(20), Some(10));
    assert_eq!(*content.content(), 20);
    assert_eq!(content.set_value(30), Some(20));
    assert_eq!(content.value(), 30);
}

#[test]
fn content_variants_are_told_apart() {
    let simple: Content<i32, &str> = Content::new_simple(7);
    assert!(simple.is_simple());
    assert!(!simple.is_layer());
    assert_eq!(simple.as_simple().map(|s| s.value()), Some(7));
    assert!(simple.as_layer().is_none());

    let layer: Content<i32, &str> = Content::new_layer("layer");
    assert!(layer.is_layer());
    assert!(!layer.is_simple());
    assert_eq!(layer.as_layer(), Some(&"layer"));
    assert!(layer.as_simple().is_none());
}
