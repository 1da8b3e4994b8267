use bytes_trie::{LocaleMatcherTestCase, TestCaseError};

fn tags(list: &[&str]) -> Vec<Vec<u8>> {
    list.iter().map(|t| t.as_bytes().to_vec()).collect()
}

#[test]
fn test_locale_matcher_test_case_from_str() {
    let actual: LocaleMatcherTestCase =
        LocaleMatcherTestCase::from_bytes("ab-CD de-EF; gh-HI; jk-LM # comment".as_bytes())
            .unwrap();
    let expected = LocaleMatcherTestCase {
        supported: tags(&["ab-CD", "de-EF"]),
        desired: tags(&["gh-HI"]),
        expected: tags(&["jk-LM"]),
    };
    assert_eq!(actual, expected);
}

#[test]
fn test_case_without_comment_and_with_empty_lists() {
    let actual = LocaleMatcherTestCase::from_bytes(b" en\tfr_CA ;;").unwrap();
    let expected = LocaleMatcherTestCase {
        supported: tags(&["en", "fr_CA"]),
        desired: tags(&[]),
        expected: tags(&[]),
    };
    assert_eq!(actual, expected);
}

#[test]
fn test_case_with_too_few_or_too_many_lists() {
    assert_eq!(
        LocaleMatcherTestCase::from_bytes(b"en; fr"),
        Err(TestCaseError::MissingList)
    );
    assert_eq!(
        LocaleMatcherTestCase::from_bytes(b""),
        Err(TestCaseError::MissingList)
    );
    assert_eq!(
        LocaleMatcherTestCase::from_bytes(b"en; fr; de # x; y"),
        Ok(LocaleMatcherTestCase {
            supported: tags(&["en"]),
            desired: tags(&["fr"]),
            expected: tags(&["de"]),
        })
    );
    assert_eq!(
        LocaleMatcherTestCase::from_bytes(b"en; fr; de; it"),
        Err(TestCaseError::ExtraList)
    );
}

#[test]
fn test_case_with_a_byte_that_no_locale_holds() {
    assert_eq!(
        LocaleMatcherTestCase::from_bytes(b"en; f!r; de"),
        Err(TestCaseError::InvalidByte)
    );
    assert_eq!(
        LocaleMatcherTestCase::from_bytes(b"en; fr; de; it, x"),
        Err(TestCaseError::InvalidByte)
    );
}
