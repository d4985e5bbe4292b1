use mrmr::{get_feature_data, get_max_value, intersection, name_less, score_key, Dataset, JointTerm, MrmrError, Selection};

fn strings(items: &[&str]) -> Vec<String> {
    items.iter().map(|s| s.to_string()).collect()
}

fn scenario_rows() -> Vec<Vec<String>> {
    vec![
        strings(&["a", "x", "0"]),
        strings(&["a", "y", "1"]),
        strings(&["b", "x", "0"]),
        strings(&["b", "y", "1"]),
    ]
}

fn scenario() -> Dataset {
    let header = strings(&["feature1", "feature2", "class"]);
    Dataset::new(&header, &scenario_rows(), &"class".to_string()).unwrap()
}

// Sums the mutual information in bits over a joint table.
fn mutual_info(ds: &Dataset, a: usize, b: usize) -> f64 {
    let n = ds.datasize() as f64;
    let mut m = 0.0;
    for t in ds.joint_terms(a, b) {
        let pab = t.joint as f64 / n;
        let pa = t.count_a as f64 / n;
        let pb = t.count_b as f64 / n;
        m += pab * (pab / (pa * pb)).log2();
    }
    m
}

// Runs the whole greedy selection with floating-point scores.
fn select(ds: &Dataset, k: Option<usize>) -> Vec<(String, f64)> {
    let mut sel = Selection::new(ds, k).unwrap();
    let class = ds.num_features();
    let relevance: Vec<f64> = (0..ds.num_features()).map(|f| mutual_info(ds, f, class)).collect();
    let mut redundancy = vec![0.0f64; ds.num_features()];
    if !sel.is_done() {
        let bits: Vec<u64> = sel.remaining().iter().map(|&f| relevance[f].to_bits()).collect();
        sel.take_best(&bits);
    }
    while !sel.is_done() {
        let last = sel.last_selected().unwrap();
        let m = sel.selected().len() as f64;
        let mut bits = Vec::new();
        for &f in sel.remaining().iter() {
            redundancy[f] += mutual_info(ds, f, last);
            bits.push((relevance[f] - redundancy[f] / m).to_bits());
        }
        sel.take_best(&bits);
    }
    sel.ranking().into_iter().map(|(n, b)| (n, f64::from_bits(b))).collect()
}

#[test]
fn feature_data_counts_each_value() {
    let st = get_feature_data(&strings(&["b", "a", "b", "c", "b"]));
    assert_eq!(st.values, strings(&["b", "a", "c"]));
    assert_eq!(st.counts, vec![3, 1, 1]);
    assert_eq!(st.codes, vec![0, 1, 0, 2, 0]);
}

#[test]
fn feature_data_of_empty_column() {
    let st = get_feature_data(&Vec::new());
    assert!(st.values.is_empty());
    assert!(st.counts.is_empty());
}

#[test]
fn scenario_marginals() {
    let ds = scenario();
    assert_eq!(ds.datasize(), 4);
    assert_eq!(ds.features(), &strings(&["feature1", "feature2"]));
    for c in 0..3 {
        assert_eq!(ds.stats(c).counts, vec![2, 2]);
    }
    assert_eq!(ds.stats(2).values, strings(&["0", "1"]));
}

#[test]
fn scenario_joint_tables() {
    let ds = scenario();
    let t = ds.joint_terms(1, 2);
    assert_eq!(
        t,
        vec![
            JointTerm { a: 0, b: 0, joint: 2, count_a: 2, count_b: 2 },
            JointTerm { a: 1, b: 1, joint: 2, count_a: 2, count_b: 2 },
        ]
    );
    assert_eq!(ds.joint_terms(0, 2).len(), 4);
    assert!(ds.joint_terms(0, 2).iter().all(|t| t.joint == 1));
}

#[test]
fn scenario_mutual_information() {
    let ds = scenario();
    assert_eq!(mutual_info(&ds, 0, 2), 0.0);
    assert_eq!(mutual_info(&ds, 1, 2), 1.0);
    assert_eq!(mutual_info(&ds, 0, 1), 0.0);
}

#[test]
fn scenario_selection() {
    let ds = scenario();
    let r = select(&ds, Some(2));
    assert_eq!(r, vec![("feature2".to_string(), 1.0), ("feature1".to_string(), 0.0)]);
}

#[test]
fn scenario_from_csv() {
    let text = b"feature1,feature2,class\na,x,0\na,y,1\nb,x,0\nb,y,1\n";
    let ds = Dataset::from_csv(text, &"class".to_string()).unwrap();
    assert_eq!(ds.datasize(), 4);
    assert_eq!(ds.features(), &strings(&["feature1", "feature2"]));
    assert_eq!(ds.class_name(), "class");
    assert_eq!(ds.stats(1).values, strings(&["x", "y"]));
    let r = select(&ds, None);
    assert_eq!(r[0], ("feature2".to_string(), 1.0));
}

#[test]
fn class_column_may_stand_anywhere() {
    let header = strings(&["label", "f"]);
    let rows = vec![strings(&["1", "p"]), strings(&["0", "q"])];
    let ds = Dataset::new(&header, &rows, &"label".to_string()).unwrap();
    assert_eq!(ds.features(), &strings(&["f"]));
    assert_eq!(ds.stats(1).values, strings(&["1", "0"]));
    assert_eq!(ds.column_index(&"label".to_string()), Ok(1));
    assert_eq!(ds.column_index(&"f".to_string()), Ok(0));
}

#[test]
fn mutual_information_is_symmetric() {
    let header = strings(&["u", "v", "class"]);
    let rows = vec![
        strings(&["1", "p", "y"]),
        strings(&["2", "p", "n"]),
        strings(&["1", "q", "y"]),
        strings(&["3", "q", "y"]),
        strings(&["2", "r", "n"]),
    ];
    let ds = Dataset::new(&header, &rows, &"class".to_string()).unwrap();
    let ab = ds.joint_terms(0, 1);
    let ba = ds.joint_terms(1, 0);
    assert_eq!(ab.len(), ba.len());
    for (x, y) in ab.iter().zip(ba.iter()) {
        assert_eq!((x.a, x.b, x.joint, x.count_a, x.count_b), (y.b, y.a, y.joint, y.count_b, y.count_a));
    }
    for a in 0..3 {
        for b in 0..3 {
            assert_eq!(mutual_info(&ds, a, b).to_bits(), mutual_info(&ds, b, a).to_bits());
            assert!(mutual_info(&ds, a, b) >= -1e-12);
        }
    }
}

#[test]
fn missing_class_is_rejected() {
    let header = strings(&["a", "b"]);
    let rows = vec![strings(&["1", "2"])];
    assert_eq!(Dataset::new(&header, &rows, &"class".to_string()).err(), Some(MrmrError::MissingFeature));
}

#[test]
fn duplicate_column_is_rejected() {
    let header = strings(&["a", "a", "class"]);
    let rows = vec![strings(&["1", "2", "3"])];
    assert_eq!(Dataset::new(&header, &rows, &"class".to_string()).err(), Some(MrmrError::DuplicateFeature));
}

#[test]
fn empty_dataset_is_rejected() {
    let header = strings(&["a", "class"]);
    assert_eq!(Dataset::new(&header, &Vec::new(), &"class".to_string()).err(), Some(MrmrError::EmptyDataset));
    let text = b"a,class\n";
    assert_eq!(Dataset::from_csv(text, &"class".to_string()).err(), Some(MrmrError::EmptyDataset));
}

#[test]
fn ragged_row_is_rejected() {
    let header = strings(&["a", "class"]);
    let rows = vec![strings(&["1", "2"]), strings(&["1"])];
    assert_eq!(Dataset::new(&header, &rows, &"class".to_string()).err(), Some(MrmrError::DataLengthMismatch));
    let text = b"a,class\n1,2\n1,2,3\n";
    assert_eq!(Dataset::from_csv(text, &"class".to_string()).err(), Some(MrmrError::DataLengthMismatch));
}

#[test]
fn empty_input_has_no_class() {
    assert_eq!(Dataset::from_csv(b"", &"class".to_string()).err(), Some(MrmrError::MissingFeature));
}

#[test]
fn malformed_input_is_rejected() {
    let text: &[u8] = &[b'a', b',', b'c', b'\n', 0xff, 0xfe, b',', b'1', b'\n'];
    assert_eq!(Dataset::from_csv(text, &"c".to_string()).err(), Some(MrmrError::MalformedInput));
}

#[test]
fn unknown_feature_is_reported() {
    let ds = scenario();
    assert_eq!(ds.column_index(&"nope".to_string()), Err(MrmrError::UnknownFeature));
    assert_eq!(ds.column_index(&"class".to_string()), Ok(2));
}

#[test]
fn zero_features_is_rejected() {
    let ds = scenario();
    assert_eq!(Selection::new(&ds, Some(0)).err(), Some(MrmrError::InvalidFeatureCount));
}

#[test]
fn selection_size_is_capped() {
    let ds = scenario();
    assert_eq!(select(&ds, Some(1)).len(), 1);
    assert_eq!(select(&ds, Some(2)).len(), 2);
    assert_eq!(select(&ds, Some(5)).len(), 2);
    assert_eq!(select(&ds, None).len(), 2);
}

#[test]
fn full_selection_is_a_permutation() {
    let header = strings(&["p", "q", "r", "s", "class"]);
    let rows = vec![
        strings(&["1", "a", "x", "k", "y"]),
        strings(&["2", "a", "y", "k", "n"]),
        strings(&["1", "b", "x", "m", "y"]),
        strings(&["3", "b", "x", "m", "n"]),
        strings(&["2", "c", "y", "k", "n"]),
    ];
    let ds = Dataset::new(&header, &rows, &"class".to_string()).unwrap();
    let mut names: Vec<String> = select(&ds, None).into_iter().map(|(n, _)| n).collect();
    names.sort();
    assert_eq!(names, strings(&["p", "q", "r", "s"]));
}

#[test]
fn selection_is_deterministic() {
    let ds = scenario();
    let a: Vec<(String, u64)> = select(&ds, None).into_iter().map(|(n, s)| (n, s.to_bits())).collect();
    let b: Vec<(String, u64)> = select(&ds, None).into_iter().map(|(n, s)| (n, s.to_bits())).collect();
    assert_eq!(a, b);
}

#[test]
fn first_pick_has_highest_relevance() {
    let header = strings(&["weak", "strong", "class"]);
    let rows = vec![
        strings(&["a", "x", "0"]),
        strings(&["a", "y", "1"]),
        strings(&["b", "z", "2"]),
        strings(&["a", "x", "0"]),
    ];
    let ds = Dataset::new(&header, &rows, &"class".to_string()).unwrap();
    let r = select(&ds, Some(1));
    assert_eq!(r[0].0, "strong");
    assert!(r[0].1 >= mutual_info(&ds, 0, 2));
}

#[test]
fn ties_go_to_the_smallest_name() {
    let names = strings(&["zeta", "alpha", "mid"]);
    let rem = vec![0, 1, 2];
    let bits = vec![0.5f64.to_bits(), 0.5f64.to_bits(), 0.25f64.to_bits()];
    assert_eq!(get_max_value(&names, &rem, &bits), 1);
    let bits = vec![0.0f64.to_bits(), (-0.0f64).to_bits(), (-1.0f64).to_bits()];
    assert_eq!(get_max_value(&names, &rem, &bits), 1);
}

#[test]
fn highest_score_wins() {
    let names = strings(&["a", "b", "c"]);
    let rem = vec![2, 0, 1];
    let bits = vec![(-2.0f64).to_bits(), 3.5f64.to_bits(), 1.0f64.to_bits()];
    assert_eq!(get_max_value(&names, &rem, &bits), 1);
}

#[test]
fn score_keys_follow_float_order() {
    let xs = [-1e300f64, -2.5, -1e-300, 0.0, 1e-300, 0.75, 3.0, 1e300];
    for w in xs.windows(2) {
        assert!(score_key(w[0].to_bits()) < score_key(w[1].to_bits()));
    }
    assert_eq!(score_key((-0.0f64).to_bits()), score_key(0.0f64.to_bits()));
}

#[test]
fn names_compare_lexicographically() {
    assert!(name_less(&"abc".to_string(), &"abd".to_string()));
    assert!(name_less(&"ab".to_string(), &"abc".to_string()));
    assert!(!name_less(&"abc".to_string(), &"abc".to_string()));
    assert!(!name_less(&"b".to_string(), &"abc".to_string()));
    assert!(name_less(&"".to_string(), &"a".to_string()));
}

#[test]
fn intersection_counts_pairs() {
    let a = get_feature_data(&strings(&["u", "v", "u", "u"]));
    let b = get_feature_data(&strings(&["p", "p", "q", "p"]));
    let t = intersection(&a, &b);
    assert_eq!(
        t,
        vec![
            JointTerm { a: 0, b: 0, joint: 2, count_a: 3, count_b: 3 },
            JointTerm { a: 1, b: 0, joint: 1, count_a: 1, count_b: 3 },
            JointTerm { a: 0, b: 1, joint: 1, count_a: 3, count_b: 1 },
        ]
    );
}

#[test]
fn no_candidate_is_rejected() {
    let header = strings(&["class"]);
    let rows = vec![strings(&["0"]), strings(&["1"])];
    let ds = Dataset::new(&header, &rows, &"class".to_string()).unwrap();
    assert_eq!(ds.num_features(), 0);
    assert_eq!(Selection::new(&ds, None).err(), Some(MrmrError::InvalidFeatureCount));
    assert_eq!(Selection::new(&ds, Some(3)).err(), Some(MrmrError::InvalidFeatureCount));
}
