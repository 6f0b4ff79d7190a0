//! Encoders: binary, numeric and categorical.
use tmu_rs::bits::words_for;
use tmu_rs::booleanizer::Number;
use tmu_rs::serial::{write_header, SerialError, TAG_ENCODER, TAG_VANILLA};
use tmu_rs::{Booleanizer, EncodedSample, Encoder, SaveLoad};

/// Whether bit `i` is set in the encoded sample.
fn bit(s: &EncodedSample, i: usize) -> bool {
    s.0[i / 64] >> (i % 64) & 1 != 0
}

fn numbers(row: &[f64]) -> Vec<Number> {
    row.iter().map(|x| Number(x.to_bits())).collect()
}

fn fit_ab() -> Encoder {
    let s1: Vec<&str> = vec!["proc::cmd.exe", "user::alice"];
    let s2: Vec<&str> = vec!["proc::powershell.exe", "user::bob"];
    let train: Vec<&[&str]> = vec![s1.as_slice(), s2.as_slice()];
    Encoder::fit_categorical(&train)
}

fn roundtrip(e: &Encoder) -> Encoder {
    let mut buf = Vec::new();
    e.write_to(&mut buf);
    Encoder::read_from(buf.as_slice()).unwrap_or_else(|e| panic!("{:?}", e))
}

#[test]
fn extend_categorical_keeps_indices_stable() {
    let mut e = fit_ab();
    let before_n = e.n_features();
    let before_tokens: Vec<String> = (0..before_n).map(|i| e.vocab_token(i).to_string()).collect();

    let n1: Vec<&str> = vec!["proc::rundll32.exe", "user::carol", "host::web01"];
    let added = e.extend_categorical(&[n1.as_slice()]);

    assert_eq!(added, 4);
    assert_eq!(e.n_features(), before_n + added);
    for (i, tok) in before_tokens.iter().enumerate() {
        assert_eq!(e.vocab_token(i), tok, "existing index {i} moved");
    }
}

#[test]
fn extend_categorical_moves_token_out_of_unk() {
    let mut e = fit_ab();
    let unk_idx = (0..e.n_features()).find(|&i| e.vocab_token(i) == "proc::<UNK>").unwrap();
    let s = e.encode_one_categorical(&["proc::rundll32.exe"]);
    assert!(bit(&s, unk_idx));

    let n1: Vec<&str> = vec!["proc::rundll32.exe"];
    e.extend_categorical(&[n1.as_slice()]);

    assert_eq!(e.vocab_token(unk_idx), "proc::<UNK>");
    let new_idx = (0..e.n_features()).find(|&i| e.vocab_token(i) == "proc::rundll32.exe").unwrap();
    let s = e.encode_one_categorical(&["proc::rundll32.exe"]);
    assert!(bit(&s, new_idx));
    assert!(!bit(&s, unk_idx));
}

#[test]
fn extend_categorical_oov_still_correct() {
    let mut e = fit_ab();
    let oov_idx = (0..e.n_features()).find(|&i| e.vocab_token(i) == "<OOV>").unwrap();

    let n1: Vec<&str> = vec!["proc::rundll32.exe"];
    e.extend_categorical(&[n1.as_slice()]);
    assert_ne!(oov_idx, e.n_features() - 1, "<OOV> should no longer be last");

    let s = e.encode_one_categorical(&["zzz"]);
    assert!(bit(&s, oov_idx));
    assert!(!bit(&s, e.n_features() - 1));
}

#[test]
fn extend_categorical_noop_returns_zero() {
    let mut e = fit_ab();
    let before_n = e.n_features();
    let s1: Vec<&str> = vec!["proc::cmd.exe", "user::bob"];
    let added = e.extend_categorical(&[s1.as_slice()]);
    assert_eq!(added, 0);
    assert_eq!(e.n_features(), before_n);
}

#[test]
fn grow_binary_updates_geometry() {
    let mut e = Encoder::for_binary(5);
    let row = [1u8, 0, 1, 1, 0];
    let before = e.encode_one(&row);

    e.grow_binary(8);
    assert_eq!(e.n_features(), 8);
    assert_eq!(e.words, words_for(16));

    let padded = [1u8, 0, 1, 1, 0, 0, 0, 0];
    let after = e.encode_one(&padded);
    for i in 0..5 {
        assert_eq!(bit(&before, i), bit(&after, i), "positive bit {i}");
        assert_eq!(bit(&before, 5 + i), bit(&after, 8 + i), "negated bit {i}");
    }
    for i in 5..8 {
        assert!(!bit(&after, i), "new feature bit {i} must be 0");
    }
}

#[test]
fn extend_categorical_serde_roundtrip() {
    let mut e = fit_ab();
    let n1: Vec<&str> = vec!["proc::rundll32.exe", "host::web01"];
    e.extend_categorical(&[n1.as_slice()]);

    let loaded = roundtrip(&e);

    assert_eq!(e.n_features(), loaded.n_features());
    let q: Vec<&str> = vec!["proc::rundll32.exe", "user::alice", "zzz"];
    let query: Vec<&[&str]> = vec![q.as_slice()];
    assert_eq!(e.encode_batch_categorical(&query).data, loaded.encode_batch_categorical(&query).data);
    for i in 0..e.n_features() {
        assert_eq!(e.vocab_token(i), loaded.vocab_token(i));
    }
}

#[test]
fn binary_encoder_roundtrip() {
    let e = Encoder::for_binary(5);
    let loaded = roundtrip(&e);
    assert_eq!(e.n_features(), loaded.n_features());

    let rows: Vec<Vec<u8>> = vec![vec![1, 0, 1, 1, 0], vec![0, 0, 1, 0, 1]];
    let refs: Vec<&[u8]> = rows.iter().map(|r| r.as_slice()).collect();
    assert_eq!(e.encode_batch(&refs).data, loaded.encode_batch(&refs).data);
}

#[test]
fn numeric_encoder_roundtrip() {
    let train: Vec<Vec<Number>> =
        (0..50).map(|i| numbers(&[i as f64, (i % 7) as f64, (i as f64) * 0.5])).collect();
    let train_refs: Vec<&[Number]> = train.iter().map(|r| r.as_slice()).collect();
    let e = Encoder::fit_numeric(&train_refs, 4);
    let loaded = roundtrip(&e);
    assert_eq!(e.n_features(), loaded.n_features());

    let test: Vec<Vec<Number>> = vec![numbers(&[3.0, 2.0, 9.0]), numbers(&[40.0, 1.0, 0.0])];
    let test_refs: Vec<&[Number]> = test.iter().map(|r| r.as_slice()).collect();
    assert_eq!(e.encode_batch_numeric(&test_refs).data, loaded.encode_batch_numeric(&test_refs).data);
    assert_eq!(e.bit_origin(0).0, loaded.bit_origin(0).0);
    assert_eq!(e.bit_origin(0).1 .0, loaded.bit_origin(0).1 .0);
}

#[test]
fn categorical_encoder_roundtrip() {
    let e = fit_ab();
    let loaded = roundtrip(&e);
    assert_eq!(e.n_features(), loaded.n_features());

    let q1: Vec<&str> = vec!["proc::cmd.exe", "user::carol"];
    let q2: Vec<&str> = vec!["proc::unknown.exe", "newcol::x"];
    let query: Vec<&[&str]> = vec![q1.as_slice(), q2.as_slice()];
    assert_eq!(e.encode_batch_categorical(&query).data, loaded.encode_batch_categorical(&query).data);
    assert_eq!(e.vocab_token(0), loaded.vocab_token(0));
}

#[test]
fn encoder_load_rejects_corrupt_data() {
    assert!(Encoder::read_from(&[]).is_err());
    assert!(Encoder::read_from(b"XXXXjunkjunk".as_slice()).is_err());
    let mut buf = Vec::new();
    write_header(&mut buf, TAG_ENCODER);
    assert!(Encoder::read_from(buf.as_slice()).is_err());
    let mut buf = Vec::new();
    write_header(&mut buf, TAG_VANILLA);
    assert!(Encoder::read_from(buf.as_slice()).is_err());
}

#[test]
fn encoder_load_says_what_is_wrong() {
    let refused = |b: &[u8]| match Encoder::read_from(b) {
        Ok(_) => panic!("accepted"),
        Err(e) => e,
    };
    assert_eq!(refused(&[]), SerialError::Truncated);
    assert_eq!(refused(b"XXXXjunkjunk"), SerialError::BadMagic);
    let mut buf = Vec::new();
    write_header(&mut buf, TAG_VANILLA);
    assert_eq!(refused(&buf), SerialError::WrongTag { found: TAG_VANILLA, expected: TAG_ENCODER });
    let mut buf = Vec::new();
    fit_ab().write_to(&mut buf);
    let mut cut = buf.clone();
    cut.pop();
    assert_eq!(refused(&cut), SerialError::Truncated);
    // What follows an artifact is left alone.
    buf.push(9);
    assert!(Encoder::read_from(&buf).is_ok());
    // A number of features that is not that of the vocabulary.
    let at = 9 + 8 + 8;
    buf[at] = buf[at].wrapping_add(1);
    assert_eq!(refused(&buf), SerialError::Inconsistent);
}

#[test]
fn columns_that_look_alike_are_kept_apart_when_saved() {
    // A token without a double colon is a column of its own, also where it ends in a colon, and
    // a token may look like the one for unseen values.
    let s: Vec<&str> = vec!["a:", "a::x", "b::<UNK>", "plain"];
    let e = Encoder::fit_categorical(&[s.as_slice()]);
    let loaded = roundtrip(&e);
    let queries: Vec<Vec<&str>> =
        vec![vec!["a:"], vec!["a::y"], vec!["b::z"], vec!["plain::q"], vec!["other"], vec!["b::<UNK>"]];
    for q in &queries {
        assert_eq!(e.encode_one_categorical(q).0, loaded.encode_one_categorical(q).0, "{:?}", q);
    }
}

#[test]
fn vocabulary_is_sorted_with_unseen_slots_last() {
    let e = fit_ab();
    let tokens: Vec<String> = (0..e.n_features()).map(|i| e.vocab_token(i).to_string()).collect();
    assert_eq!(
        tokens,
        vec![
            "proc::cmd.exe",
            "proc::powershell.exe",
            "user::alice",
            "user::bob",
            "proc::<UNK>",
            "user::<UNK>",
            "<OOV>",
        ]
    );
    let s = e.encode_one_categorical(&["user::zed", "proc::cmd.exe", "host::x"]);
    let on: Vec<usize> = (0..7).filter(|&i| bit(&s, i)).collect();
    assert_eq!(on, vec![0, 5, 6]);
    for i in 0..7 {
        assert_ne!(bit(&s, i), bit(&s, 7 + i));
    }
}

#[test]
fn extension_leaves_old_bits_in_place() {
    let mut e = fit_ab();
    let n = e.n_features();
    let query = ["proc::cmd.exe", "user::zed", "host::x"];
    let before = e.encode_one_categorical(&query);
    e.extend_categorical(&[&["proc::aaa"]]);
    let after = e.encode_one_categorical(&query);
    for i in 0..n {
        assert_eq!(bit(&before, i), bit(&after, i));
    }
    assert!(!bit(&after, n));
}

#[test]
fn quantile_thresholds_are_order_statistics() {
    let rows: Vec<Vec<Number>> = [9.0, 1.0, 5.0, 3.0, 7.0].iter().map(|&x| numbers(&[x, -x])).collect();
    let refs: Vec<&[Number]> = rows.iter().map(|r| r.as_slice()).collect();
    let b = Booleanizer::fit(&refs, 2, 3);
    assert_eq!(b.n_output_features(), 6);
    // Ranks (t + 1) * 4 / 4 of the sorted values.
    let cuts: Vec<f64> = (0..6).map(|i| f64::from_bits(b.bit_origin(i).1 .0)).collect();
    assert_eq!(cuts, vec![3.0, 5.0, 7.0, -7.0, -5.0, -3.0]);
    let mut out = vec![9u8; 6];
    b.transform_row(&numbers(&[5.0, -6.0]), &mut out);
    assert_eq!(out, vec![1, 0, 0, 1, 0, 0]);
}

#[test]
fn numbers_compare_as_doubles_do() {
    let xs = [0.0f64, -0.0, 1.5, -1.5, f64::INFINITY, f64::NEG_INFINITY, f64::NAN, 1e-310, -1e-310];
    for &a in &xs {
        for &b in &xs {
            assert_eq!(Number(a.to_bits()).above(&Number(b.to_bits())), a > b, "{a} {b}");
        }
        assert_eq!(Number(a.to_bits()).nan(), a.is_nan());
    }
}

#[test]
fn bits_of_a_feature_are_a_thermometer() {
    let rows: Vec<Vec<Number>> = (0..40).map(|i| numbers(&[((i * 7) % 13) as f64, (i as f64).sin()])).collect();
    let refs: Vec<&[Number]> = rows.iter().map(|r| r.as_slice()).collect();
    let b = Booleanizer::fit(&refs, 2, 5);
    for r in &rows {
        let mut out = vec![0u8; 10];
        b.transform_row(r, &mut out);
        for feature in out.chunks(5) {
            assert!(feature.windows(2).all(|w| w[0] >= w[1]), "{:?}", feature);
        }
    }
}

#[test]
fn extension_gives_every_token_a_bit_and_is_done_once() {
    let mut e = fit_ab();
    let more: Vec<&str> = vec!["host::web01", "proc::rundll32.exe", "user::carol"];
    assert!(e.extend_categorical(&[more.as_slice()]) > 0);
    assert_eq!(e.extend_categorical(&[more.as_slice()]), 0);
    for &t in &more {
        let k = (0..e.n_features()).find(|&k| e.vocab_token(k) == t).unwrap();
        let alone: Vec<&str> = vec![t];
        assert!(bit(&e.encode_one_categorical(&alone), k));
    }
}

#[test]
fn bits_of_a_numeric_encoder_are_grouped_by_feature() {
    let rows = [numbers(&[3.0, -1.0]), numbers(&[1.0, 4.0]), numbers(&[2.0, 0.5]), numbers(&[8.0, 2.5])];
    let xs: Vec<&[Number]> = rows.iter().map(|r| r.as_slice()).collect();
    let e = Encoder::fit_numeric(&xs, 3);
    assert_eq!(e.n_features(), 6);
    let origins: Vec<(usize, f64)> =
        (0..6).map(|k| e.bit_origin(k)).map(|(f, t)| (f, f64::from_bits(t.0))).collect();
    // Of four values the ranks of the three cut points are 0, 1 and 2.
    assert_eq!(origins, vec![(0, 1.0), (0, 2.0), (0, 3.0), (1, -1.0), (1, 0.5), (1, 2.5)]);
}

#[test]
fn a_sample_from_bits_is_that_of_a_binary_encoder() {
    let x = [1u8, 0, 7, 0, 1];
    assert_eq!(EncodedSample::from_bits(&x, 5).0, Encoder::for_binary(5).encode_one(&x).0);
    assert_eq!(EncodedSample::from_bits(&x, 5).0, vec![0b01010_10101]);
}
