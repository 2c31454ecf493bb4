use mushroom_bot::db_builder::{build_database_bytes, default_prior_configs, fits_database, KnownFingerprintRaw};
use mushroom_bot::db_text::{load_fingerprints, load_prior_configs, parse_i16_array, split_key_value, split_items};
use mushroom_bot::opponent_db::OpponentDB;
use mushroom_bot::types::{FeatureVector8, MovePriorConfig};

#[test]
fn prior_config_file_reads_entries_over_defaults() {
    let text = "# priors\n\nid = 7\nshape_boost = 1, 2, 3, 4, 5, 6, 7, 8\nmedium_rect_boost=-5\n  max_total_adjustment = 1000  \nconfidence_min = 70\n---\nid=9\r\nbarrier_boost = 3\n";
    let entries = load_prior_configs(text).expect("the file reads");
    assert_eq!(entries.len(), 2);
    assert_eq!(entries[0].id, 7);
    assert_eq!(entries[0].config.shape_boost, [1, 2, 3, 4, 5, 6, 7, 8]);
    assert_eq!(entries[0].config.medium_rect_boost, -5);
    assert_eq!(entries[0].config.barrier_boost, 0);
    assert_eq!(entries[0].config.max_total_adjustment, 1000);
    assert_eq!(entries[0].config.confidence_min, 70);
    let d = MovePriorConfig::new_default();
    assert_eq!(entries[1].id, 9);
    assert_eq!(entries[1].config.barrier_boost, 3);
    assert_eq!(entries[1].config.shape_boost, d.shape_boost);
    assert_eq!(entries[1].config.max_total_adjustment, 3000);
    assert_eq!(entries[1].config.confidence_min, 60);
}

#[test]
fn prior_config_without_id_is_dropped() {
    let entries = load_prior_configs("barrier_boost = 4\n---\n# nothing else\n").expect("the file reads");
    assert!(entries.is_empty());
    let entries = load_prior_configs("").expect("an empty file reads");
    assert!(entries.is_empty());
}

#[test]
fn prior_config_file_refuses_bad_lines() {
    assert!(load_prior_configs("id = 1\ncolour = 3\n").is_none());
    assert!(load_prior_configs("id 1\n").is_none());
    assert!(load_prior_configs("id = -1\n").is_none());
    assert!(load_prior_configs("medium_rect_boost = 40000\n").is_none());
    assert!(load_prior_configs("shape_boost = 1 2 3 4 5 6 7\n").is_none());
    assert!(load_prior_configs("confidence_min = 256\n").is_none());
    assert!(load_prior_configs("max_total_adjustment = 65535\nid = +4\n").is_some());
}

#[test]
fn fingerprint_file_reads_entries() {
    let text = "id = 3\nstyle = 2\nside_mask = 3\nmin_moves = 5\nconfidence_threshold = 40\nmargin_to_second = 9\nmean = 10; 20; 30; 40; 50; 60; 70; 80\nvar = 1 1 1 1 2 2 2 2\nprior_config_id = 11\n---\n---\n# second\nid=4\n";
    let fps = load_fingerprints(text).expect("the file reads");
    assert_eq!(fps.len(), 2);
    assert_eq!(fps[0].id, 3);
    assert_eq!(fps[0].style, 2);
    assert_eq!(fps[0].side_mask, 3);
    assert_eq!(fps[0].min_moves, 5);
    assert_eq!(fps[0].confidence_threshold, 40);
    assert_eq!(fps[0].margin_to_second, 9);
    assert_eq!(fps[0].mean.dim, [10, 20, 30, 40, 50, 60, 70, 80]);
    assert_eq!(fps[0].var.dim, [1, 1, 1, 1, 2, 2, 2, 2]);
    assert_eq!(fps[0].prior_config_id, 11);
    assert_eq!(fps[1].id, 4);
    assert_eq!(fps[1].style, 0);
    assert_eq!(fps[1].mean.dim, [0; 8]);
}

#[test]
fn fingerprint_file_refuses_bad_lines() {
    assert!(load_fingerprints("id = 1\nstyle = x\n").is_none());
    assert!(load_fingerprints("side_mask = 300\n").is_none());
    assert!(load_fingerprints("just text\n").is_none());
    assert!(load_fingerprints("mean = 1 2 3 4 5 6 7 8 9\n").is_none());
}

#[test]
fn i16_arrays_split_on_spaces_commas_and_semicolons() {
    let s = b"v = 1 2;3,4  5,,6 7 -8 ";
    assert_eq!(parse_i16_array(s, 4, s.len()), Some([1, 2, 3, 4, 5, 6, 7, -8]));
    assert_eq!(split_items(s, 4, s.len()).len(), 8);
    let t = b"1 2 3 4 5 6 7 x";
    assert_eq!(parse_i16_array(t, 0, t.len()), None);
    let u = b"1 2 3 4 5 6 7 32768";
    assert_eq!(parse_i16_array(u, 0, u.len()), None);
}

#[test]
fn key_value_lines_split_at_the_first_equals() {
    let s = b" key =  a=b ";
    let ((ka, kb), (va, vb)) = split_key_value(s, 0, s.len()).expect("has an equals sign");
    assert_eq!(&s[ka..kb], b"key");
    assert_eq!(&s[va..vb], b"a=b");
    assert!(split_key_value(b"no equals", 0, 9).is_none());
}

#[test]
fn built_database_loads_back_its_entries() {
    let priors = default_prior_configs();
    let fp = KnownFingerprintRaw {
        id: 5,
        style: 3,
        side_mask: 2,
        min_moves: 4,
        confidence_threshold: 45,
        margin_to_second: 1,
        mean: FeatureVector8 { dim: [1, -2, 3, -4, 5, -6, 7, -8] },
        var: FeatureVector8 { dim: [128; 8] },
        prior_config_id: 2,
    };
    assert!(fits_database(1, priors.len(), 3));
    let bytes = build_database_bytes(9, 8, &priors, &[fp], &[1, 2, 3]);
    assert_eq!(bytes.len(), 40 + 16 + 48 + 16 + 72 + 16 + 3 + 8);
    let mut db = OpponentDB::new();
    assert!(!OpponentDB::overflows_tables(&bytes));
    assert!(db.load(&bytes));
    assert!(db.is_loaded());
    // Fingerprints are written as 48-byte records and read as 64-byte ones: one record
    // written gives none read.
    assert_eq!(db.fingerprints().len(), 0);
    let second = db.get_prior_config(2).expect("prior 2 is there");
    assert_eq!(second.shape_boost, priors[1].config.shape_boost);
    assert_eq!(second.barrier_boost, 320);
    assert_eq!(second.max_total_adjustment, 2200);
    assert!(db.get_prior_config(3).is_none());
}

#[test]
fn built_fingerprints_load_by_sixty_four_byte_records() {
    let fp = KnownFingerprintRaw {
        id: 5,
        style: 3,
        side_mask: 2,
        min_moves: 4,
        confidence_threshold: 45,
        margin_to_second: 1,
        mean: FeatureVector8 { dim: [0; 8] },
        var: FeatureVector8 { dim: [128; 8] },
        prior_config_id: 2,
    };
    let bytes = build_database_bytes(1, 0, &[], &[fp, fp, fp, fp], &[]);
    let mut db = OpponentDB::new();
    assert!(!OpponentDB::overflows_tables(&bytes));
    assert!(db.load(&bytes));
    let fps = db.fingerprints();
    assert_eq!(fps.len(), 3);
    assert_eq!(fps[0].id, 5);
    assert_eq!(fps[0].style, 3);
    assert!(db.get_prior_config(1).is_none());
}
