use bd_suffix::{IndexMode, StrIndex, SuffixArray};

fn char_count_check(array: &SuffixArray<StrIndex>, text: &str) {
    assert_eq!(array.indices().len(), text.chars().count());
}

fn byte_count_check(array: &SuffixArray<()>, text: &str) {
    assert_eq!(array.indices().len(), text.bytes().len());
}

fn run_cases<M: IndexMode>(suffix: &SuffixArray<M>) {
    assert_eq!(suffix.search_naive("ab".as_bytes()).map(|r| r.0), Ok(0));
    assert_eq!(suffix.search_naive("ac".as_bytes()).map(|r| r.0), Ok(1));
    assert!(suffix.search_naive("錆".as_bytes()).is_ok());
    assert_eq!(suffix.search_naive("cb".as_bytes()), Err(5));
}

fn gen_test_base_u8(f: fn(Vec<u8>, ()) -> SuffixArray<()>) {
    let text = "abcde錆acad";
    let suffix = f(text.as_bytes().to_vec(), ());
    run_cases(&suffix);
    byte_count_check(&suffix, text);
}

fn gen_test_base_str(f: fn(Vec<u8>, StrIndex) -> SuffixArray<StrIndex>) {
    let text = "abcde錆acad";
    let suffix = f(text.as_bytes().to_vec(), StrIndex);
    run_cases(&suffix);
    char_count_check(&suffix, text);
}

#[test]
fn gen_simple_naive_u8() {
    gen_test_base_u8(SuffixArray::new_naive);
}

#[test]
fn gen_simple_naive_str() {
    gen_test_base_str(SuffixArray::new_naive);
}

#[test]
fn gen_simple_bucket_u8() {
    gen_test_base_u8(SuffixArray::new_bucket);
}

#[test]
fn gen_simple_bucket_str() {
    gen_test_base_str(SuffixArray::new_bucket);
}

#[test]
fn twostage_u8() {
    gen_test_base_u8(SuffixArray::new_two_stage);
}
