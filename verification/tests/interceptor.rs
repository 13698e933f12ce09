use suffix_fst::interceptor::{SfxTokenInterceptor, Token};

fn make_stream(words: &[(&str, usize, usize)]) -> Vec<Token> {
    words
        .iter()
        .enumerate()
        .map(|(i, (text, from, to))| Token {
            text: text.to_string(),
            offset_from: *from,
            offset_to: *to,
            position: i,
            position_length: 1,
        })
        .collect()
}

#[test]
fn test_interceptor_captures_all_tokens() {
    let stream = make_stream(&[("import", 0, 6), ("rag3db", 7, 13), ("from", 14, 18)]);

    let mut interceptor = SfxTokenInterceptor::wrap(stream);

    // Consume the stream (as postings_writer would)
    let mut count = 0;
    while interceptor.advance() {
        let _ = interceptor.token();
        count += 1;
    }
    assert_eq!(count, 3);

    let captured = interceptor.take_captured();
    assert_eq!(captured.len(), 3);
    assert_eq!(captured[0].text, "import");
    assert_eq!(captured[0].offset_from, 0);
    assert_eq!(captured[0].offset_to, 6);
    assert_eq!(captured[1].text, "rag3db");
    assert_eq!(captured[2].text, "from");
}

#[test]
fn test_interceptor_passthrough() {
    let stream = make_stream(&[("hello", 0, 5), ("world", 6, 11)]);
    let mut interceptor = SfxTokenInterceptor::wrap(stream);

    assert!(interceptor.advance());
    assert_eq!(interceptor.token().text, "hello");
    assert_eq!(interceptor.token().offset_from, 0);

    assert!(interceptor.advance());
    assert_eq!(interceptor.token().text, "world");

    assert!(!interceptor.advance());
}

#[test]
fn test_interceptor_empty_stream() {
    let stream = make_stream(&[]);
    let mut interceptor = SfxTokenInterceptor::wrap(stream);

    assert!(!interceptor.advance());
    assert!(interceptor.take_captured().is_empty());
}

#[test]
fn taking_starts_a_new_list() {
    let mut interceptor = SfxTokenInterceptor::wrap(make_stream(&[("a", 0, 1), ("b", 2, 3)]));
    assert!(interceptor.advance());
    assert_eq!(interceptor.take_captured().len(), 1);
    assert!(interceptor.advance());
    let rest = interceptor.take_captured();
    assert_eq!(rest.len(), 1);
    assert_eq!(rest[0].text, "b");
}

#[test]
fn a_changed_token_stays_kept_as_it_passed() {
    let mut interceptor = SfxTokenInterceptor::wrap(make_stream(&[("a", 0, 1), ("b", 2, 3)]));
    assert!(interceptor.advance());
    interceptor.token_mut().text = "changed".to_string();
    assert_eq!(interceptor.token().text, "changed");
    assert!(interceptor.advance());
    assert_eq!(interceptor.token().text, "b");
    let captured = interceptor.take_captured();
    assert_eq!(captured[0].text, "a");
    assert_eq!(captured[1].text, "b");
}
