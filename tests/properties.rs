use bd_suffix::builders::{BucketBuilder, Builder, NaiveBuilder, SAISBuilder, SAISBuilderU8};
use bd_suffix::sais::suffix_types;
use bd_suffix::search::{NaiveSearcher, Searcher};
use bd_suffix::{IndexMode, StrIndex, SuffixArray};

fn all_builds<M: IndexMode + Copy>(values: &[u8], mode: M) -> Vec<SuffixArray<M>> {
    vec![
        SuffixArray::new_naive(values.to_vec(), mode),
        SuffixArray::new_bucket(values.to_vec(), mode),
        SuffixArray::new_two_stage(values.to_vec(), mode),
        SuffixArray::new_two_stage_u8(values.to_vec(), mode),
        SuffixArray::new_sais(values.to_vec(), mode),
        SuffixArray::new_sais_u8(values.to_vec(), mode),
        SuffixArray::new_by::<BucketBuilder>(values.to_vec(), mode),
        SuffixArray::new_by::<SAISBuilderU8>(values.to_vec(), mode),
    ]
}

/// A small linear congruential generator, so that the inputs are fixed.
struct Lcg(u64);

impl Lcg {
    fn next(&mut self) -> u64 {
        self.0 = self.0.wrapping_mul(6364136223846793005).wrapping_add(1442695040888963407);
        self.0 >> 33
    }
}

fn random_bytes(rng: &mut Lcg, len: usize, alphabet: &[u8]) -> Vec<u8> {
    (0..len).map(|_| alphabet[(rng.next() as usize) % alphabet.len()]).collect()
}

fn accepted_positions<M: IndexMode>(values: &[u8], mode: &M) -> Vec<usize> {
    (0..values.len()).filter(|&p| mode.is_index(p, &values[p])).collect()
}

fn check_array<M: IndexMode>(array: &SuffixArray<M>, values: &[u8], mode: &M) {
    let idx = array.indices();
    let mut sorted = idx.to_vec();
    sorted.sort();
    assert_eq!(sorted, accepted_positions(values, mode));
    for w in idx.windows(2) {
        assert!(values[w[0]..] < values[w[1]..]);
    }
}

#[test]
fn scenario_banana() {
    for array in all_builds(b"banana", ()) {
        assert_eq!(array.indices(), &[5, 3, 1, 0, 4, 2]);
        assert_eq!(array.values(), &b"banana".to_vec());
    }
}

#[test]
fn scenario_boundary_filter_counts_characters() {
    let text = "abcde錆ac";
    for array in all_builds(text.as_bytes(), StrIndex) {
        assert_eq!(array.indices().len(), text.chars().count());
        assert_eq!(array.indices().len(), 8);
        assert_ne!(array.indices().len(), text.len());
    }
}

#[test]
fn scenario_boundary_filter_search() {
    let text = "abcde錆acad";
    for array in all_builds(text.as_bytes(), StrIndex) {
        assert_eq!(array.search_naive(b"ab"), Ok((0, 1)));
        assert_eq!(array.search_naive(b"cb"), Err(5));
        assert_eq!(array.search_naive(b"a"), Ok((0, 3)));
        // 'z' sorts after every ASCII suffix but before the one at the lead
        // byte of the three-byte character.
        assert_eq!(array.search_naive(b"z"), Err(9));
        assert_eq!(array.search_naive(&[0xff]), Err(array.indices().len()));
        assert_eq!(array.search_naive(b""), Ok((0, array.indices().len())));
    }
}

#[test]
fn boundaries_of_empty_inputs() {
    for array in all_builds(b"", ()) {
        assert!(array.indices().is_empty());
        assert_eq!(array.search_naive(b"a"), Err(0));
        assert_eq!(array.search_naive(b""), Ok((0, 0)));
        assert!(!NaiveSearcher::search_contains(&array, b"a"));
    }
    let array = SuffixArray::new_naive(b"abc".to_vec(), ());
    assert_eq!(array.search_naive(b""), Ok((0, 3)));
    assert!(NaiveSearcher::search_contains(&array, b""));
}

#[test]
fn every_position_rejected() {
    let bytes = vec![0x80u8, 0x81, 0xbf];
    for array in all_builds(&bytes, StrIndex) {
        assert!(array.indices().is_empty());
        assert_eq!(array.search_naive(&[0x80]), Err(0));
    }
}

#[test]
fn query_longer_than_suffix() {
    let array = SuffixArray::new_naive(b"abab".to_vec(), ());
    // Suffixes in order: ab, abab, b, bab.
    assert_eq!(array.indices(), &[2, 0, 3, 1]);
    assert_eq!(array.search_naive(b"aba"), Ok((1, 2)));
    assert_eq!(array.search_naive(b"abb"), Err(2));
    assert_eq!(array.search_naive(b"ababa"), Err(2));
    assert_eq!(array.search_naive(b"b"), Ok((2, 4)));
}

#[test]
fn contains_agrees_with_search() {
    let array = SuffixArray::new_bucket(b"mississippi".to_vec(), ());
    for q in [&b"ssi"[..], b"issip", b"pp", b"x", b"ippi", b"mississippix", b"i"] {
        assert_eq!(
            NaiveSearcher::search_contains(&array, q),
            array.search_naive(q).is_ok()
        );
    }
    assert_eq!(array.search::<NaiveSearcher>(b"ssi"), Ok((9, 11)));
    assert_eq!(array.search_naive(b"i"), Ok((0, 4)));
}

#[test]
fn builders_agree_on_random_inputs() {
    let mut rng = Lcg(7);
    let alphabets: [&[u8]; 4] = [b"ab", b"abc", b"acgt", &[0x61, 0x62, 0xe3, 0x81, 0x95]];
    for len in 0..=200usize {
        for alphabet in alphabets.iter() {
            let values = random_bytes(&mut rng, len, alphabet);
            let oracle = SuffixArray::new_naive(values.clone(), ());
            check_array(&oracle, &values, &());
            for array in all_builds(&values, ()) {
                assert_eq!(array.indices(), oracle.indices());
            }
            let oracle_str = SuffixArray::new_naive(values.clone(), StrIndex);
            check_array(&oracle_str, &values, &StrIndex);
            for array in all_builds(&values, StrIndex) {
                assert_eq!(array.indices(), oracle_str.indices());
            }
        }
    }
}

#[test]
fn repetitive_inputs_match_the_oracle() {
    let inputs: [&[u8]; 6] = [
        b"aaaaaaaaaa",
        b"abababababab",
        b"abcabcabcabcabc",
        b"mississippi",
        b"abaabaaabaaaab",
        b"baabaabaabaab",
    ];
    for values in inputs {
        let oracle = SuffixArray::new_naive(values.to_vec(), ());
        check_array(&oracle, values, &());
        for array in all_builds(values, ()) {
            assert_eq!(array.indices(), oracle.indices());
        }
    }
}

#[test]
fn round_trip_search_finds_own_suffix() {
    let mut rng = Lcg(11);
    for len in [1usize, 5, 17, 64] {
        let values = random_bytes(&mut rng, len, b"abc");
        let array = SuffixArray::new_sais_u8(values.clone(), ());
        for (slot, &p) in array.indices().iter().enumerate() {
            let (lo, hi) = array.search_naive(&values[p..]).unwrap();
            assert!(lo <= slot && slot < hi);
        }
    }
}

#[test]
fn default_builder_and_trait_builders() {
    let array: SuffixArray<()> = SuffixArray::new(b"banana".to_vec());
    assert_eq!(array.indices(), &[5, 3, 1, 0, 4, 2]);
    let text = "さびabさ".as_bytes().to_vec();
    let by_str: SuffixArray<StrIndex> = SuffixArray::new(text.clone());
    assert_eq!(by_str.indices(), NaiveBuilder::build(text.clone(), StrIndex).indices());
    assert_eq!(by_str.indices(), SAISBuilder::build(text, StrIndex).indices());
    assert_eq!(*by_str.mode(), StrIndex);
}

#[test]
fn modes_accept_as_documented() {
    assert!(StrIndex.is_index(0, &b'a'));
    assert!(StrIndex.is_index(0, &0xe3));
    assert!(!StrIndex.is_index(0, &0x80));
    assert!(!StrIndex.is_index(0, &0xbf));
    assert!(StrIndex.is_index(0, &0xc0));
    assert!(StrIndex.need_check());
    assert!(().is_index(3, &0x80));
    assert!(!().need_check());
}

#[test]
fn suffix_types_of_known_words() {
    assert_eq!(suffix_types(b"banana"), vec![true, false, true, false, true, true]);
    assert_eq!(
        suffix_types(b"mississippi"),
        vec![true, false, true, true, false, true, true, false, true, true, true]
    );
    assert_eq!(suffix_types(b""), Vec::<bool>::new());
    assert_eq!(suffix_types(b"a"), vec![true]);
    assert_eq!(suffix_types(b"aab"), vec![false, false, true]);
}

#[test]
fn suffix_types_follow_suffix_order() {
    let mut rng = Lcg(5);
    for len in 1..60usize {
        let values = random_bytes(&mut rng, len, b"abc");
        let types = suffix_types(&values);
        assert_eq!(types.len(), len);
        assert!(types[len - 1]);
        for i in 0..len - 1 {
            assert_eq!(types[i], values[i + 1..] < values[i..]);
        }
    }
}
