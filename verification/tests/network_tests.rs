use std::io::Write;

use wisard::config::Config;
use wisard::discriminator::Discriminator;
use wisard::error::WisardError;
use wisard::mnist::MnistData;
use wisard::network::Wisard;

// A small network with a known sequential mapping: two hashtables, windows
// of four, eight mapped positions.
fn small_wis(bleach: u16) -> Wisard {
    Wisard::with_params(2, 4, bleach, None, Some(vec![0, 1, 2, 3, 4, 5, 6, 7])).unwrap()
}

#[test]
fn rank_stability_second_pass_identical() {
    let mut wis = Wisard::with_params(28, 8, 0, None, None).unwrap();
    let sample = vec![
        52u64, 70, 64, 199, 7, 133, 5, 194, 16, 104, 41, 147, 42, 77, 188, 140, 148, 160, 6, 87,
        107, 73, 168, 95, 63, 11, 2, 49, 130, 43, 92, 110, 13, 157, 125, 6, 93, 119, 86, 85, 103,
        27, 124, 65, 9, 195, 21, 130, 192, 32, 136, 34, 70, 89, 84, 167, 175, 148, 116, 177, 161,
        134, 98, 30, 190, 47,
    ];
    let first = wis.ranks(sample.clone());
    let len_after_first = wis.rank_table_len();
    let second = wis.ranks(sample);
    assert_eq!(first, second);
    assert_eq!(len_after_first, wis.rank_table_len());
}

#[test]
fn rank_table_grows_by_one_per_distinct_pattern() {
    let mut wis = Wisard::with_params(28, 8, 0, None, None).unwrap();
    // Nine windows, all with distinct orderings.
    let sample = vec![
        52u64, 70, 64, 199, 7, 133, 5, 194, 16, 104, 41, 147, 42, 77, 188, 140, 148, 160, 6, 87,
        107, 73, 168, 95, 63, 11, 2, 49, 130, 43, 92, 110, 13, 157, 125, 6, 93, 119, 86, 85, 103,
        27, 124, 65, 9, 195, 21, 130, 192, 32, 136, 34, 70, 89, 84, 167, 175, 148, 116, 177, 161,
        134, 98, 30, 190, 47,
    ];
    assert_eq!(wis.rank_table_len(), 0);
    let ranks = wis.ranks(sample);
    assert_eq!(ranks.len(), 9);
    assert_eq!(wis.rank_table_len(), 9);
}

#[test]
fn classify_read_only_does_not_grow_rank_table() {
    let mut wis = small_wis(0);
    wis.train(vec![10, 20, 30, 40, 50, 60, 70, 80], "a".to_string()).unwrap();
    let len_before = wis.rank_table_len();
    // A sample with a window ordering never seen in training.
    let r = wis.classify(vec![80, 70, 60, 50, 40, 30, 20, 10]);
    assert!(r.is_ok());
    assert_eq!(len_before, wis.rank_table_len());
}

#[test]
fn classify_picks_most_voted_label() {
    let mut wis = small_wis(0);
    let a = vec![10u64, 20, 30, 40, 50, 60, 70, 80];
    let b = vec![80u64, 70, 60, 50, 40, 30, 20, 10];
    wis.train(a.clone(), "up".to_string()).unwrap();
    wis.train(b.clone(), "down".to_string()).unwrap();
    assert_eq!(wis.classify(a).unwrap(), "up".to_string());
    assert_eq!(wis.classify(b).unwrap(), "down".to_string());
}

#[test]
fn classify_tie_goes_to_last_created_label() {
    let mut wis = small_wis(0);
    let s = vec![10u64, 20, 30, 40, 50, 60, 70, 80];
    wis.train(s.clone(), "first".to_string()).unwrap();
    wis.train(s.clone(), "second".to_string()).unwrap();
    // Both discriminators vote with full strength: the label created last
    // wins the tie.
    assert_eq!(wis.classify(s).unwrap(), "second".to_string());
}

#[test]
fn classify_counts_reports_top_and_second() {
    let mut wis = small_wis(0);
    let a = vec![10u64, 20, 30, 40, 50, 60, 70, 80];
    let b = vec![80u64, 70, 60, 50, 40, 30, 20, 10];
    wis.train(a.clone(), "up".to_string()).unwrap();
    wis.train(b, "down".to_string()).unwrap();
    let (label, top, second) = wis.classify_counts(a).unwrap();
    assert_eq!(label, "up".to_string());
    assert_eq!(top, 2);
    assert_eq!(second, 0);
}

#[test]
fn classify_without_discriminators_is_out_of_bounds() {
    let wis = small_wis(0);
    assert!(matches!(
        wis.classify(vec![1, 2, 3, 4, 5, 6, 7, 8]),
        Err(WisardError::WisardOutOfBounds)
    ));
}

#[test]
fn short_sample_is_out_of_bounds_but_creates_discriminator() {
    let mut wis = small_wis(0);
    let r = wis.train(vec![1, 2, 3], "a".to_string());
    assert!(matches!(r, Err(WisardError::WisardOutOfBounds)));
    assert_eq!(wis.disc_count(), 1);
    assert_eq!(wis.rank_table_len(), 0);
}

#[test]
fn bleach_threshold_suppresses_single_observations() {
    // One training pass leaves every trained address at count one: it votes
    // at bleach zero and is silenced at bleach one.
    let mut d = Discriminator::new(2);
    d.train(vec![3, 5]).unwrap();
    let (votes, trained) = d.classify(&vec![3, 5], 0);
    assert_eq!(votes, 2);
    assert_eq!(trained, 1);
    let (votes, _) = d.classify(&vec![3, 5], 1);
    assert_eq!(votes, 0);
}

#[test]
fn discriminator_short_addresses_are_rejected() {
    let mut d = Discriminator::new(3);
    assert!(matches!(d.train(vec![1, 2]), Err(WisardError::WisardOutOfBounds)));
}

#[test]
fn validation_rejects_window_larger_than_image() {
    let r = Wisard::with_params(10, 10, 0, Some((5, 5)), None);
    match r {
        Err(WisardError::WisardValidationFailed(m)) => {
            assert_eq!(m, "sampling range exceeds image size".to_string());
        },
        _ => panic!("expected a validation failure"),
    }
}

#[test]
fn validation_rejects_short_mapping() {
    let r = Wisard::with_params(2, 2, 0, None, Some(vec![0, 1, 2]));
    match r {
        Err(WisardError::WisardValidationFailed(m)) => {
            assert_eq!(m, "mapping too small".to_string());
        },
        _ => panic!("expected a validation failure"),
    }
}

#[test]
fn validation_rejects_mapping_larger_than_image() {
    let r = Wisard::with_params(2, 2, 0, Some((2, 2)), Some(vec![0, 1, 2, 3, 4]));
    match r {
        Err(WisardError::WisardValidationFailed(m)) => {
            assert_eq!(m, "mapping larger than image".to_string());
        },
        _ => panic!("expected a validation failure"),
    }
}

#[test]
fn validation_rejects_zero_window() {
    let r = Wisard::with_params(5, 0, 0, None, None);
    match r {
        Err(WisardError::WisardValidationFailed(m)) => {
            assert_eq!(m, "address length must be positive".to_string());
        },
        _ => panic!("expected a validation failure"),
    }
}

#[test]
fn change_hyperparameters_validates_and_resets() {
    let mut wis = small_wis(0);
    wis.train(vec![1, 2, 3, 4, 5, 6, 7, 8], "a".to_string()).unwrap();
    let r = wis.change_hyperparameters(10, 10, 0, Some((5, 5)), None);
    assert!(matches!(r, Err(WisardError::WisardValidationFailed(_))));
    // The rejected change left everything in place.
    assert_eq!(wis.disc_count(), 1);
    let r = wis.change_hyperparameters(3, 3, 1, None, None);
    assert!(r.is_ok());
    assert_eq!(wis.disc_count(), 0);
    assert_eq!(wis.rank_table_len(), 0);
    let (hashtables, addresses, bleach, target, mapping) = wis.get_info();
    assert_eq!(hashtables, 3);
    assert_eq!(addresses, 3);
    assert_eq!(bleach, 1);
    assert_eq!(target, (28, 28));
    assert_eq!(mapping.len(), 9);
}

#[test]
fn erase_and_change_hyperparameters_installs_fresh_mapping() {
    let mut wis = small_wis(0);
    wis.train(vec![1, 2, 3, 4, 5, 6, 7, 8], "a".to_string()).unwrap();
    wis.erase_and_change_hyperparameters(2, 3, 4);
    assert_eq!(wis.disc_count(), 0);
    assert_eq!(wis.rank_table_len(), 0);
    let (hashtables, addresses, bleach, _target, mapping) = wis.get_info();
    assert_eq!(hashtables, 2);
    assert_eq!(addresses, 3);
    assert_eq!(bleach, 4);
    let mut sorted = mapping.clone();
    sorted.sort();
    assert_eq!(sorted, vec![0, 1, 2, 3, 4, 5]);
}

#[test]
fn get_info_reports_the_given_parameters() {
    let wis = small_wis(7);
    let (hashtables, addresses, bleach, target, mapping) = wis.get_info();
    assert_eq!(hashtables, 2);
    assert_eq!(addresses, 4);
    assert_eq!(bleach, 7);
    assert_eq!(target, (28, 28));
    assert_eq!(mapping, vec![0, 1, 2, 3, 4, 5, 6, 7]);
    assert_eq!(wis.target_size(), (28, 28));
}

#[test]
fn default_mapping_is_a_permutation_of_the_cells() {
    let wis = Wisard::new();
    let (hashtables, addresses, bleach, target, mapping) = wis.get_info();
    assert_eq!(hashtables, 35);
    assert_eq!(addresses, 21);
    assert_eq!(bleach, 0);
    assert_eq!(target, (28, 28));
    let mut sorted = mapping.clone();
    sorted.sort();
    let expected: Vec<u64> = (0..735).collect();
    assert_eq!(sorted, expected);
}

#[test]
fn save_load_round_trip_classifies_identically() {
    let mut wis = small_wis(0);
    let a = vec![10u64, 20, 30, 40, 50, 60, 70, 80];
    let b = vec![80u64, 70, 60, 50, 40, 30, 20, 10];
    wis.train(a.clone(), "up".to_string()).unwrap();
    wis.train(b.clone(), "down".to_string()).unwrap();
    let blob = wis.save().unwrap();

    let mut fresh = small_wis(0);
    fresh.load(&blob).unwrap();
    assert_eq!(wis.classify(a.clone()).unwrap(), fresh.classify(a).unwrap());
    assert_eq!(wis.classify(b.clone()).unwrap(), fresh.classify(b).unwrap());
    assert_eq!(wis.get_info(), fresh.get_info());
}

#[test]
fn load_rejects_corrupt_blobs() {
    let mut wis = small_wis(0);
    assert!(matches!(
        wis.load(&[1, 2, 3]),
        Err(WisardError::WisardSerializationError)
    ));
    let blob = vec![0u8; 24];
    assert!(matches!(
        wis.load(&blob),
        Err(WisardError::WisardSerializationError)
    ));
}

#[test]
fn error_messages_name_the_reason() {
    let e = WisardError::WisardValidationFailed("mapping too small".to_string());
    assert_eq!(e.message(), "mapping too small".to_string());
    assert_eq!(
        WisardError::WisardOutOfBounds.message(),
        "index out of bounds".to_string()
    );
}

#[test]
fn mnist_parse_reads_label_header() {
    // Magic 2049, one size of 3, then three label bytes.
    let bytes = vec![0u8, 0, 8, 1, 0, 0, 0, 3, 7, 8, 9];
    let m = MnistData::parse(&bytes).unwrap();
    assert_eq!(m.sizes, vec![3]);
    assert_eq!(m.data, vec![7, 8, 9]);
}

#[test]
fn mnist_parse_reads_image_header_and_slices_images() {
    // Magic 2051, two images of two rows by two columns.
    let mut bytes = vec![0u8, 0, 8, 3, 0, 0, 0, 2, 0, 0, 0, 2, 0, 0, 0, 2];
    bytes.extend_from_slice(&[1, 2, 3, 4, 5, 6, 7, 8]);
    let m = MnistData::parse(&bytes).unwrap();
    assert_eq!(m.sizes, vec![2, 2, 2]);
    let imgs = m.images().unwrap();
    assert_eq!(imgs, vec![vec![1, 2, 3, 4], vec![5, 6, 7, 8]]);
}

#[test]
fn mnist_parse_rejects_unknown_magic() {
    let bytes = vec![0u8, 0, 0, 1, 0, 0, 0, 3];
    assert!(matches!(
        MnistData::parse(&bytes),
        Err(WisardError::WisardSerializationError)
    ));
}

#[test]
fn mnist_new_rejects_a_stream_that_is_no_gzip() {
    let bytes = vec![1u8, 2, 3];
    assert!(matches!(
        MnistData::new(&bytes),
        Err(WisardError::WisardIOError)
    ));
}

#[test]
fn mnist_images_rejects_wrong_shape() {
    let m = MnistData { sizes: vec![3], data: vec![1, 2, 3] };
    assert!(m.images().is_none());
    let m = MnistData { sizes: vec![2, 2, 2], data: vec![1, 2, 3] };
    assert!(m.images().is_none());
}

#[test]
fn mnist_new_inflates_a_real_gzip_stream() {
    // Magic 2049, one size of 2, two label bytes, gzip-compressed.
    let plain = vec![0u8, 0, 8, 1, 0, 0, 0, 2, 4, 9];
    let mut enc = flate2::write::GzEncoder::new(Vec::new(), flate2::Compression::default());
    enc.write_all(&plain).unwrap();
    let gz = enc.finish().unwrap();
    let m = MnistData::new(&gz).unwrap();
    assert_eq!(m.sizes, vec![2]);
    assert_eq!(m.data, vec![4, 9]);
}

#[test]
fn save_load_keeps_non_ascii_labels() {
    let mut wis = small_wis(0);
    let a = vec![10u64, 20, 30, 40, 50, 60, 70, 80];
    wis.train(a.clone(), "zéro öß 数".to_string()).unwrap();
    let blob = wis.save().unwrap();
    let mut fresh = small_wis(0);
    fresh.load(&blob).unwrap();
    assert_eq!(fresh.classify(a).unwrap(), "zéro öß 数".to_string());
}

#[test]
fn config_reads_arguments_in_order() {
    let args = vec![
        "prog".to_string(),
        "28".to_string(),
        "8".to_string(),
        "2".to_string(),
    ];
    let c = Config::new(args).unwrap();
    assert_eq!(c.number_of_hashtables, "28".to_string());
    assert_eq!(c.address_size, "8".to_string());
    assert_eq!(c.bleach, "2".to_string());
}

#[test]
fn config_defaults_bleach_to_zero() {
    let args = vec!["prog".to_string(), "28".to_string(), "8".to_string()];
    let c = Config::new(args).unwrap();
    assert_eq!(c.bleach, "0".to_string());
}

#[test]
fn config_rejects_missing_arguments() {
    assert!(matches!(
        Config::new(vec!["prog".to_string()]),
        Err("Didn't get number of hashtables size")
    ));
    assert!(matches!(
        Config::new(vec!["prog".to_string(), "28".to_string()]),
        Err("Didn't get address size")
    ));
}
