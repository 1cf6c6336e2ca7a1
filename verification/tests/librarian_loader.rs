use infisearch::librarian::loader::{BasicLoaderResult, LoaderResult};

#[test]
fn loader_result_hands_out_its_field_texts_once() {
    let mut result = BasicLoaderResult::new(vec![("title", "A title".to_owned()), ("body", "Some text".to_owned())]);
    assert_eq!(
        result.get_field_texts(),
        vec![("title", "A title".to_owned()), ("body", "Some text".to_owned())]
    );
    assert!(result.get_field_texts().is_empty());
}
