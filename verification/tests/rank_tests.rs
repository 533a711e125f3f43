use wisard::network::Wisard;

fn base_sample() -> Vec<u64> {
    vec![
        52, 70, 64, 199, 7, 133, 5, 194, 16, 104, 41, 147, 42, 77, 188, 140, 148, 160, 6, 87, 107,
        73, 168, 95, 63, 11, 2, 49, 130, 43, 92, 110, 13, 157, 125, 6, 93, 119, 86, 85, 103, 27,
        124, 65, 9, 195, 21, 130, 192, 32, 136, 34, 70, 89, 84, 167, 175, 148, 116, 177, 161, 134,
        98, 30, 190, 47,
    ]
}

fn modified_sample() -> Vec<u64> {
    vec![
        52, 70, 64, 199, 7, 133, 5, 194, 16, 104, 41, 147, 42, 77, 188, 140, 148, 160, 6, 87, 107,
        73, 168, 95, 63, 11, 2, 49, 130, 43, 92, 110, 13, 157, 125, 6, 93, 119, 86, 85, 103, 27,
        124, 65, 9, 195, 21, 130, 192, 32, 136, 34, 70, 89, 84, 167, 175, 148, 116, 177, 161, 134,
        98, 30, 190, 205,
    ]
}

fn wis_28_8() -> Wisard {
    Wisard::with_params(28, 8, 0, None, None).unwrap()
}

#[test]
fn test_ranks() {
    let mut wis = wis_28_8();
    let samples = base_sample();
    wis.ranks(samples);
    assert!(wis.rank_table_len() > 0);
}

#[test]
fn test_rank_table_length() {
    let mut wis = wis_28_8();
    wis.ranks(base_sample());
    let length1 = wis.rank_table_len();
    wis.ranks(base_sample());
    let length2 = wis.rank_table_len();
    assert_eq!(length1, length2);
}

#[test]
fn test_rank_addresses() {
    let mut wis = wis_28_8();
    let addresses = wis.ranks(base_sample());
    assert_eq!(addresses, vec![0, 1, 2, 3, 4, 5, 6, 7, 8]);
}

#[test]
fn test_rank_differente_addresses() {
    let mut wis = wis_28_8();
    let addresses = wis.ranks(base_sample());
    assert_eq!(addresses, vec![0, 1, 2, 3, 4, 5, 6, 7, 8]);
    let addresses = wis.ranks(modified_sample());
    assert_eq!(addresses, vec![0, 1, 2, 3, 4, 5, 6, 7, 9]);
}

#[test]
fn test_lib_ranks() {
    let mut wis = wis_28_8();
    wis.ranks(base_sample());
    assert!(wis.rank_table_len() > 0);
}

#[test]
fn test_lib_rank_table_length() {
    let mut wis = wis_28_8();
    wis.ranks(base_sample());
    let length1 = wis.rank_table_len();
    wis.ranks(base_sample());
    let length2 = wis.rank_table_len();
    assert_eq!(length1, length2);
}

#[test]
fn test_lib_rank_addresses() {
    let mut wis = wis_28_8();
    let addresses = wis.ranks(base_sample());
    assert_eq!(addresses, vec![0, 1, 2, 3, 4, 5, 6, 7, 8]);
}

#[test]
fn test_lib_rank_different_addresses() {
    let mut wis = wis_28_8();
    let addresses = wis.ranks(base_sample());
    assert_eq!(addresses, vec![0, 1, 2, 3, 4, 5, 6, 7, 8]);
    let addresses = wis.ranks(modified_sample());
    assert_eq!(addresses, vec![0, 1, 2, 3, 4, 5, 6, 7, 9]);
}

#[test]
fn wisard_test_lib_ranks() {
    let mut wis = wis_28_8();
    wis.ranks(base_sample());
    assert!(wis.rank_table_len() > 0);
}

#[test]
fn wisard_test_lib_rank_table_length() {
    let mut wis = wis_28_8();
    wis.ranks(base_sample());
    let length1 = wis.rank_table_len();
    wis.ranks(base_sample());
    let length2 = wis.rank_table_len();
    assert_eq!(length1, length2);
}

#[test]
fn wisard_test_lib_rank_addresses() {
    let mut wis = wis_28_8();
    let addresses = wis.ranks(base_sample());
    assert_eq!(addresses, vec![0, 1, 2, 3, 4, 5, 6, 7, 8]);
}

#[test]
fn wisard_test_lib_rank_different_addresses() {
    let mut wis = wis_28_8();
    let addresses = wis.ranks(base_sample());
    assert_eq!(addresses, vec![0, 1, 2, 3, 4, 5, 6, 7, 8]);
    let addresses = wis.ranks(modified_sample());
    assert_eq!(addresses, vec![0, 1, 2, 3, 4, 5, 6, 7, 9]);
}

// The default-built network encodes with windows of 21, so the 66-value
// sample splits into four windows (the last holding three values).
#[test]
fn dict_wisard_test_lib_ranks() {
    let mut wis = Wisard::new();
    wis.ranks_t(base_sample());
    assert!(wis.rank_table_len() > 0);
}

#[test]
fn dict_wisard_test_lib_rank_table_length() {
    let mut wis = Wisard::new();
    wis.ranks_t(base_sample());
    let length1 = wis.rank_table_len();
    wis.ranks_t(base_sample());
    let length2 = wis.rank_table_len();
    assert_eq!(length1, length2);
}

#[test]
fn dict_wisard_test_lib_rank_addresses() {
    let mut wis = Wisard::new();
    let addresses = wis.ranks_t(base_sample());
    assert_eq!(addresses, vec![0, 1, 2, 3]);
}

#[test]
fn dict_wisard_test_lib_rank_different_addresses() {
    let mut wis = Wisard::new();
    let addresses = wis.ranks_t(base_sample());
    assert_eq!(addresses, vec![0, 1, 2, 3]);
    let addresses = wis.ranks_t(modified_sample());
    assert_eq!(addresses, vec![0, 1, 2, 4]);
}

#[test]
fn test_save_load() {
    let mut wis = wis_28_8();
    let _ = wis.ranks(base_sample());

    let blob = wis.save().unwrap();

    let mut decoded = wis_28_8();
    decoded.load(&blob).unwrap();
    let decoded_addresses = decoded.ranks(modified_sample());

    assert_eq!(vec![0, 1, 2, 3, 4, 5, 6, 7, 9], decoded_addresses);
}

#[test]
fn dict_wisard_test_save_load() {
    let mut wis = Wisard::new();
    let _ = wis.ranks_t(base_sample());

    let blob = wis.save().unwrap();

    let mut decoded = Wisard::new();
    decoded.load(&blob).unwrap();
    let decoded_addresses = decoded.ranks_t(modified_sample());

    assert_eq!(vec![0, 1, 2, 4], decoded_addresses);
}

// Erase resets the hyperparameters to their defaults (windows of 21) and
// clears the rank table, so re-encoding starts again at rank zero.
#[test]
fn test_erase() {
    let mut wis = wis_28_8();
    let _ = wis.ranks(base_sample());

    wis.erase();
    assert_eq!(wis.rank_table_len(), 0);

    let addresses = wis.ranks(modified_sample());
    assert_eq!(vec![0, 1, 2, 3], addresses);
}

#[test]
fn dict_wisard_test_erase() {
    let mut wis = Wisard::new();
    let _ = wis.ranks_t(base_sample());

    wis.erase();
    assert_eq!(wis.rank_table_len(), 0);

    let addresses = wis.ranks_t(modified_sample());
    assert_eq!(vec![0, 1, 2, 3], addresses);
}
