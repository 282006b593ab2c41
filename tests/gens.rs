use bd_suffix::{IndexMode, StrIndex, SuffixArray};

fn gen_test_base<M: IndexMode>(
    mode: M,
    f: &dyn Fn(Vec<u8>, M) -> SuffixArray<M>,
    value: &str,
    cases: &[(&str, Result<usize, usize>)],
    expected_len: usize,
) {
    let suffix = f(value.as_bytes().to_vec(), mode);
    for case in cases {
        assert_eq!(suffix.search_naive(case.0.as_bytes()).map(|r| r.0), case.1);
    }
    assert_eq!(suffix.indices().len(), expected_len);
}

const LONG: &str = "xsijecvmbnxqynqpguzombqufmwugoayupbzawgymdtqqtojgydgbcdnqsuvvdzsawcyyevwtvadjaoqagoiceparehcixtnrglh";

fn gen_test_cases_u8(f: &dyn Fn(Vec<u8>, ()) -> SuffixArray<()>) {
    let text = "abcde錆さびacad";
    gen_test_base(
        (),
        f,
        text,
        &[
            ("ab", Ok(0)),
            ("abc", Ok(0)),
            ("abd", Err(1)),
            ("ac", Ok(1)),
            ("ba", Err(3)),
            ("bc", Ok(3)),
            ("bd", Err(4)),
            ("さび", Ok(15)),
            ("錆", Ok(17)),
        ],
        text.bytes().len(),
    );
    gen_test_base((), f, "aaa", &[], 3);
    gen_test_base(
        (),
        f,
        LONG,
        &[("zs", Ok(99)), ("za", Ok(97)), ("ag", Ok(1))],
        LONG.bytes().len(),
    );
}

fn gen_test_cases_str(f: &dyn Fn(Vec<u8>, StrIndex) -> SuffixArray<StrIndex>) {
    let text = "abcde錆さびacad";
    gen_test_base(
        StrIndex,
        f,
        text,
        &[
            ("ab", Ok(0)),
            ("abc", Ok(0)),
            ("abd", Err(1)),
            ("ac", Ok(1)),
            ("ba", Err(3)),
            ("bc", Ok(3)),
            ("bd", Err(4)),
            ("さび", Ok(9)),
        ],
        text.chars().count(),
    );
    gen_test_base(
        StrIndex,
        f,
        LONG,
        &[("zs", Ok(99)), ("za", Ok(97)), ("ag", Ok(1))],
        LONG.chars().count(),
    );
}

#[test]
fn tests_naive_u8() {
    gen_test_cases_u8(&SuffixArray::new_naive);
}

#[test]
fn tests_naive_str() {
    gen_test_cases_str(&SuffixArray::new_naive);
}

#[test]
fn tests_bucket_u8() {
    gen_test_cases_u8(&SuffixArray::new_bucket);
}

#[test]
fn tests_bucket_str() {
    gen_test_cases_str(&SuffixArray::new_bucket);
}

#[test]
fn twostage_u8_g() {
    gen_test_cases_u8(&SuffixArray::new_two_stage);
}

#[test]
fn twostage_str_g() {
    gen_test_cases_str(&SuffixArray::new_two_stage);
}

#[test]
fn twostage_u8_s() {
    gen_test_cases_u8(&SuffixArray::new_two_stage_u8);
}

#[test]
fn twostage_str_s() {
    gen_test_cases_str(&SuffixArray::new_two_stage_u8);
}

#[test]
fn sais_u8_g() {
    gen_test_cases_u8(&SuffixArray::new_sais);
}

#[test]
fn sais_str_g() {
    gen_test_cases_str(&SuffixArray::new_sais);
}

#[test]
fn sais_u8_s() {
    gen_test_cases_u8(&SuffixArray::new_sais_u8);
}

#[test]
fn sais_str_s() {
    gen_test_cases_str(&SuffixArray::new_sais_u8);
}
