use rand::SeedableRng;
use rand_chacha::ChaCha20Rng;
use respire::crt::ConfigError;
use respire::params::FactoryParams;
use respire::pir::{decode_record, encode_record, record_for_index, RespirePir};
use respire::respire::Respire;
use respire::sample::DiscreteGaussian;

fn gaussian(width_millionths: u64) -> DiscreteGaussian {
    let w = width_millionths as f64 / 1_000_000.0;
    let sigma = w / (2.0 * std::f64::consts::PI).sqrt();
    let bound = (6.0 * sigma).ceil() as u64 + 1;
    let weights: Vec<f64> = (0..2 * bound + 1)
        .map(|i| {
            let x = i as f64 - bound as f64;
            (-std::f64::consts::PI * x * x / (w * w)).exp()
        })
        .collect();
    let total: f64 = weights.iter().sum();
    let mut acc = 0.0;
    let mut cdf = Vec::with_capacity(weights.len());
    for wt in &weights {
        acc += wt / total;
        cdf.push(if acc >= 1.0 { u64::MAX } else { (acc * u64::MAX as f64) as u64 });
    }
    *cdf.last_mut().unwrap() = u64::MAX;
    DiscreteGaussian::new(bound, cdf).unwrap()
}

fn factory(p: u64) -> FactoryParams {
    FactoryParams {
        BATCH_SIZE: 1,
        N_VEC: 1,
        P: p,
        D_RECORD: 512,
        NU1: 9,
        NU2: 9,
        Q_SWITCH1: 8 * 16,
        Q_SWITCH2: 1032193,
        D_SWITCH: 512,
        WIDTH_SWITCH_MILLIONTHS: 46_000_000,
    }
}

fn record(i: usize, len: usize) -> Vec<u8> {
    let mut r = vec![0_u8; len];
    r[0] = (i % 256) as u8;
    r[1] = ((i / 256) % 256) as u8;
    r[2] = 42_u8;
    r[3] = 0_u8;
    r[4] = (i % 100) as u8;
    r[5] = ((i / 100) % 100) as u8;
    r[6] = ((i / 100 / 100) % 100) as u8;
    r[7] = ((i / 100 / 100 / 100) % 100) as u8;
    r[len - 1] = 0xf7;
    r
}

#[test]
fn record_packing_round_trip() {
    let bytes = vec![48_u8, 47, 17, 255, 183, 0];
    let c = encode_record(&bytes, 16);
    assert_eq!(c, vec![0, 3, 15, 2, 1, 1, 15, 15, 7, 11, 0, 0, 0, 0, 0, 0]);
    assert_eq!(decode_record(&c, 6), bytes);
    assert_eq!(decode_record(&c, 2), vec![48, 47]);
}

#[test]
fn end_to_end_small_database() {
    let params = factory(16).expand().expand().unwrap();
    let scheme = Respire::new(&params, gaussian(params.base.ERROR_WIDTH_MILLIONTHS)).unwrap();
    let bytes_per_record = params.base.D_RECORD * 4 / 8;
    let num_records = 6;
    let pir = RespirePir::new(scheme, num_records, bytes_per_record).unwrap();
    let records: Vec<Vec<u8>> = (0..num_records).map(|i| record(i * 7919, bytes_per_record)).collect();
    let db = pir.encode_db(&records).unwrap();
    let mut rng = ChaCha20Rng::seed_from_u64(711711);
    let qk = pir.setup(&mut rng);
    for idx in [0, 3, num_records - 1] {
        let q = pir.query(&mut rng, &qk, idx);
        let response = pir.answer(&db, &q);
        assert_eq!(pir.extract(&qk, &response), records[idx]);
    }
}

#[test]
fn pir_rejects_bad_shapes() {
    let params = factory(16).expand().expand().unwrap();
    let scheme = Respire::new(&params, gaussian(params.base.ERROR_WIDTH_MILLIONTHS)).unwrap();
    assert!(RespirePir::new(scheme.clone(), 4, 2048).is_err());
    let pir = RespirePir::new(scheme, 2, 4).unwrap();
    assert!(pir.encode_db(&vec![vec![1, 2, 3, 4], vec![1, 2, 3]]).is_none());
    let params17 = factory(17).expand().expand().unwrap();
    let scheme17 = Respire::new(&params17, gaussian(params17.base.ERROR_WIDTH_MILLIONTHS)).unwrap();
    assert_eq!(RespirePir::new(scheme17, 2, 4).err(), Some(ConfigError::PlaintextTooLarge));
}

#[test]
fn record_generator_bytes() {
    let r = record_for_index(711711, 16);
    assert_eq!(r.len(), 16);
    assert_eq!(&r[..8], &[(711711 % 256) as u8, ((711711 / 256) % 256) as u8, 42, 0, 11, 17, 71, 0]);
    assert!(r[8..].iter().all(|&b| b == 0));
    assert_eq!(record_for_index(3, 8), record(3, 8).iter().map(|&b| if b == 0xf7 { 0 } else { b }).collect::<Vec<u8>>());
}

#[test]
fn batch_query_checks_size_and_order() {
    let params = factory(16).expand().expand().unwrap();
    let scheme = Respire::new(&params, gaussian(params.base.ERROR_WIDTH_MILLIONTHS)).unwrap();
    let pir = RespirePir::new(scheme, 3, 16).unwrap();
    let records: Vec<Vec<u8>> = (0..3).map(|i| record_for_index(i * 1000, 16)).collect();
    let db = pir.encode_db(&records).unwrap();
    let mut rng = ChaCha20Rng::seed_from_u64(5);
    let qk = pir.setup(&mut rng);
    assert_eq!(pir.query_batch(&mut rng, &qk, &vec![0, 1]).err(), Some(ConfigError::DimensionMismatch));
    let qs = pir.query_batch(&mut rng, &qk, &vec![2]).unwrap();
    assert_eq!(qs.len(), 1);
    assert_eq!(pir.extract(&qk, &pir.answer(&db, &qs[0])), records[2]);
}
