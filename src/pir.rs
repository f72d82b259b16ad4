//! Private retrieval of one record: the client sends an encrypted one-hot
//! selector, the server returns its homomorphic dot product with the
//! database, and the client decrypts the selected record.
use crate::crt::ConfigError;
use crate::crt_eval::{q_coeffs_of, CycloParams, IntModCycloCRTEval};
use crate::cyclo::{ints, IntModCyclo};
use crate::respire::{
    bodies, combine, cols_wf, encrypts, small_key, evals1, evals2, evals_of1, evals_of2, lin_comb, masks, phase1, phase2, scaled, RegevCiphertext,
    Respire,
};
use rand_chacha::ChaCha20Rng;
use vstd::prelude::*;

verus! {

/// The plaintext modulus that record packing assumes: one nibble per coefficient.
pub const RECORD_MODULUS: u64 = 16;

/// The coefficients that hold `bytes`: two per byte, low nibble first,
/// zero up to `d`.
pub open spec fn packed(bytes: Seq<u8>, d: int) -> Seq<int> {
    Seq::new(
        d as nat,
        |i: int|
            if i < 2 * bytes.len() {
                if i % 2 == 0 {
                    (bytes[i / 2] as int) % 16
                } else {
                    (bytes[i / 2] as int) / 16
                }
            } else {
                0
            },
    )
}

/// The bytes that the first `2n` coefficients of `c` hold.
pub open spec fn unpacked(c: Seq<int>, n: int) -> Seq<int> {
    Seq::new(n as nat, |k: int| c[2 * k] + 16 * c[2 * k + 1])
}

/// Packing loses nothing: unpacking the coefficients of `bytes` gives `bytes`.
pub proof fn lemma_record_round_trip(bytes: Seq<u8>, d: int)
    requires
        2 * bytes.len() <= d,
    ensures
        unpacked(packed(bytes, d), bytes.len() as int) == Seq::new(bytes.len(), |k: int| bytes[k] as int),
{
    assert forall|k: int| 0 <= k < bytes.len() implies #[trigger] unpacked(packed(bytes, d), bytes.len() as int)[k] == bytes[k] as int by {
        assert((2 * k) / 2 == k);
        assert((2 * k + 1) / 2 == k);
        assert((2 * k) % 2 == 0);
        assert((2 * k + 1) % 2 == 1);
    }
    assert(unpacked(packed(bytes, d), bytes.len() as int) =~= Seq::new(bytes.len(), |k: int| bytes[k] as int));
}

/// The coefficients of a record, modulo 16.
pub fn encode_record(bytes: &Vec<u8>, d: usize) -> (r: Vec<u64>)
    requires
        2 * bytes.len() <= d,
    ensures
        ints(r@) == packed(bytes@, d as int),
        forall|i: int| 0 <= i < r.len() ==> #[trigger] r@[i] < 16,
{
    let mut out: Vec<u64> = Vec::with_capacity(d);
    let mut i: usize = 0;
    while i < d
        invariant
            2 * bytes.len() <= d,
            i <= d,
            out.len() == i,
            forall|k: int| 0 <= k < i ==> #[trigger] out@[k] == packed(bytes@, d as int)[k],
            forall|k: int| 0 <= k < i ==> #[trigger] out@[k] < 16,
        decreases d - i,
    {
        let v: u64 = if i < 2 * bytes.len() {
            let b = bytes[i / 2] as u64;
            if i % 2 == 0 {
                b % 16
            } else {
                b / 16
            }
        } else {
            0
        };
        out.push(v);
        i += 1;
    }
    proof {
        assert(ints(out@) =~= packed(bytes@, d as int));
    }
    out
}

/// The `n` bytes held by the first `2n` coefficients (each below 16).
pub fn decode_record(c: &Vec<u64>, n: usize) -> (r: Vec<u8>)
    requires
        2 * n <= c.len(),
        forall|i: int| 0 <= i < c.len() ==> #[trigger] c@[i] < 16,
    ensures
        r.len() == n,
        Seq::new(r.len() as nat, |k: int| r@[k] as int) == unpacked(ints(c@), n as int),
{
    let mut out: Vec<u8> = Vec::with_capacity(n);
    let mut k: usize = 0;
    while k < n
        invariant
            2 * n <= c.len(),
            forall|i: int| 0 <= i < c.len() ==> #[trigger] c@[i] < 16,
            k <= n,
            out.len() == k,
            forall|t: int| 0 <= t < k ==> #[trigger] out@[t] == c@[2 * t] + 16 * c@[2 * t + 1],
        decreases n - k,
    {
        let lo = c[2 * k];
        let hi = c[2 * k + 1];
        out.push((lo + 16 * hi) as u8);
        k += 1;
    }
    proof {
        assert(Seq::new(out.len() as nat, |k: int| out@[k] as int) =~= unpacked(ints(c@), n as int));
    }
    out
}

/// `round(16·c / q) mod 16` for each coefficient `c` modulo `q` of the
/// element with evaluation vectors `v1`, `v2`.
pub open spec fn rounded(v1: Seq<int>, v2: Seq<int>, p: CycloParams, q: int) -> Seq<int> {
    Seq::new(p.d as nat, |i: int| ((q_coeffs_of(v1, v2, p)[i] * 16 + q / 2) / q) % 16)
}

/// The synthetic record for index `i`: the index in bytes 0-1 (base 256) and
/// 4-7 (base 100), the marker 42 in byte 2, zeros elsewhere.
pub fn record_for_index(i: usize, len: usize) -> (r: Vec<u8>)
    requires
        len >= 8,
    ensures
        r.len() == len,
        r@[0] == i % 256,
        r@[1] == (i / 256) % 256,
        r@[2] == 42,
        r@[4] == i % 100,
        r@[5] == (i / 100) % 100,
        r@[6] == ((i / 100) / 100) % 100,
        r@[7] == (((i / 100) / 100) / 100) % 100,
        forall|k: int| (k == 3 || 8 <= k < len) ==> #[trigger] r@[k] == 0,
{
    let mut record = vec![0u8; len];
    record.set(0, (i % 256) as u8);
    record.set(1, ((i / 256) % 256) as u8);
    record.set(2, 42u8);
    record.set(4, (i % 100) as u8);
    record.set(5, ((i / 100) % 100) as u8);
    record.set(6, ((i / 100 / 100) % 100) as u8);
    record.set(7, ((i / 100 / 100 / 100) % 100) as u8);
    record
}

/// The server's database: each record as a ring element modulo `Q` whose
/// coefficients are the record's nibbles.
#[derive(Debug, Clone)]
pub struct Database {
    pub elems: Vec<IntModCycloCRTEval>,
}

/// A query: one encryption per record, of `Δ` at the requested index and of
/// `0` elsewhere (`Δ = floor(Q / 16)`).
#[derive(Debug, Clone)]
pub struct Query {
    pub cts: Vec<RegevCiphertext>,
}

/// The protocol over a scheme, for `num_records` records of
/// `bytes_per_record` bytes.
#[derive(Debug, Clone)]
pub struct RespirePir {
    pub scheme: Respire,
    pub num_records: usize,
    pub bytes_per_record: usize,
}

/// The constant polynomial `v` of degree `d`.
pub open spec fn unit_at(d: int, v: int) -> Seq<int> {
    Seq::new(d as nat, |i: int| if i == 0 { v } else { 0 })
}

impl RespirePir {
    pub open spec fn wf(&self) -> bool {
        &&& self.scheme.wf()
        &&& self.scheme.params.base.P == RECORD_MODULUS
        &&& RECORD_MODULUS <= self.scheme.params.Q
        &&& 2 * self.bytes_per_record <= self.scheme.ring.d
    }

    /// `q` is an encrypted one-hot selector for record `idx` under `qk`.
    pub open spec fn selects(&self, q: Query, qk: IntModCycloCRTEval, idx: int) -> bool {
        &&& q.cts.len() == self.num_records
        &&& cols_wf(q.cts@, self.ring())
        &&& forall|j: int| 0 <= j < self.num_records ==> {
            let sel = scaled(unit_at(self.ring().d as int, if j == idx { 1 } else { 0 }), (self.scheme.params.Q / 16) as int);
            encrypts(#[trigger] q.cts@[j], qk, evals1(sel, self.ring()), evals2(sel, self.ring()), self.scheme.error.bound as int)
        }
    }

    pub open spec fn ring(&self) -> CycloParams {
        self.scheme.ring
    }

    /// The protocol for a scheme whose plaintext modulus is 16 and whose
    /// degree holds a record.
    pub fn new(scheme: Respire, num_records: usize, bytes_per_record: usize) -> (r: Result<RespirePir, ConfigError>)
        requires
            scheme.wf(),
        ensures
            r is Ok <==> (scheme.params.base.P == RECORD_MODULUS && RECORD_MODULUS <= scheme.params.Q && 2
                * bytes_per_record <= scheme.ring.d),
            r matches Ok(p) ==> p.wf() && p.num_records == num_records && p.bytes_per_record == bytes_per_record,
    {
        if scheme.params.base.P != RECORD_MODULUS {
            return Err(ConfigError::PlaintextTooLarge);
        }
        if bytes_per_record > scheme.ring.d / 2 {
            return Err(ConfigError::GadgetTooShort);
        }
        if scheme.params.Q < RECORD_MODULUS {
            return Err(ConfigError::PlaintextTooLarge);
        }
        Ok(RespirePir { scheme, num_records, bytes_per_record })
    }

    /// The client's key.
    pub fn setup(&self, rng: &mut ChaCha20Rng) -> (qk: IntModCycloCRTEval)
        requires
            self.wf(),
        ensures
            qk.wf(),
            qk.params == self.ring(),
            small_key(qk, self.ring(), self.scheme.error.bound as int),
    {
        self.scheme.encode_setup(rng)
    }

    /// Each record as a ring element; `None` when a record has the wrong size.
    pub fn encode_db(&self, records: &Vec<Vec<u8>>) -> (r: Option<Database>)
        requires
            self.wf(),
        ensures
            r is Some <==> forall|j: int| 0 <= j < records.len() ==> (#[trigger] records@[j]).len() == self.bytes_per_record,
            r matches Some(db) ==> {
                &&& db.elems.len() == records.len()
                &&& forall|j: int| 0 <= j < records.len() ==> (#[trigger] db.elems@[j]).wf() && db.elems@[j].params == self.ring()
                    && db.elems@[j].v1() == evals1(packed(records@[j]@, self.ring().d as int), self.ring())
                    && db.elems@[j].v2() == evals2(packed(records@[j]@, self.ring().d as int), self.ring())
            },
    {
        let d = self.scheme.ring.d;
        let mut elems: Vec<IntModCycloCRTEval> = Vec::with_capacity(records.len());
        let mut j: usize = 0;
        while j < records.len()
            invariant
                self.wf(),
                d == self.ring().d,
                j <= records.len(),
                elems.len() == j,
                forall|t: int| 0 <= t < j ==> (#[trigger] records@[t]).len() == self.bytes_per_record,
                forall|t: int| 0 <= t < j ==> (#[trigger] elems@[t]).wf() && elems@[t].params == self.ring()
                    && elems@[t].v1() == evals1(packed(records@[t]@, d as int), self.ring())
                    && elems@[t].v2() == evals2(packed(records@[t]@, d as int), self.ring()),
            decreases records.len() - j,
        {
            if records[j].len() != self.bytes_per_record {
                return None;
            }
            let c = encode_record(&records[j], d);
            let m = IntModCyclo { n: RECORD_MODULUS, coeff: c };
            proof {
                assert(m.view() == ints(m.coeff@));
            }
            elems.push(self.scheme.embed(&m));
            j += 1;
        }
        Some(Database { elems })
    }

    /// The encrypted one-hot selector for record `idx`.
    pub fn query(&self, rng: &mut ChaCha20Rng, qk: &IntModCycloCRTEval, idx: usize) -> (q: Query)
        requires
            self.wf(),
            qk.wf(),
            qk.params == self.ring(),
        ensures
            self.selects(q, *qk, idx as int),
    {
        let d = self.scheme.ring.d;
        let mut one_c = vec![0u64; d];
        one_c.set(0, 1);
        let zero_p = IntModCyclo { n: RECORD_MODULUS, coeff: vec![0u64; d] };
        let one_p = IntModCyclo { n: RECORD_MODULUS, coeff: one_c };
        proof {
            assert(zero_p.view() =~= unit_at(d as int, 0));
            assert(one_p.view() =~= unit_at(d as int, 1));
        }
        let zero = self.scheme.scale_up(&zero_p);
        let one = self.scheme.scale_up(&one_p);
        let mut cts: Vec<RegevCiphertext> = Vec::with_capacity(self.num_records);
        let mut j: usize = 0;
        while j < self.num_records
            invariant
                self.wf(),
                qk.wf(),
                qk.params == self.ring(),
                d == self.ring().d,
                zero.wf(),
                one.wf(),
                zero.params == self.ring(),
                one.params == self.ring(),
                zero.v1() == evals1(scaled(unit_at(d as int, 0), (self.scheme.params.Q / 16) as int), self.ring()),
                zero.v2() == evals2(scaled(unit_at(d as int, 0), (self.scheme.params.Q / 16) as int), self.ring()),
                one.v1() == evals1(scaled(unit_at(d as int, 1), (self.scheme.params.Q / 16) as int), self.ring()),
                one.v2() == evals2(scaled(unit_at(d as int, 1), (self.scheme.params.Q / 16) as int), self.ring()),
                j <= self.num_records,
                cts.len() == j,
                cols_wf(cts@, self.ring()),
                forall|t: int| 0 <= t < j ==> {
                    let sel = scaled(unit_at(d as int, if t == idx { 1 } else { 0 }), (self.scheme.params.Q / 16) as int);
                    encrypts(#[trigger] cts@[t], *qk, evals1(sel, self.ring()), evals2(sel, self.ring()), self.scheme.error.bound as int)
                },
            decreases self.num_records - j,
        {
            let ct = if j == idx {
                self.scheme.encode_regev(rng, qk, &one)
            } else {
                self.scheme.encode_regev(rng, qk, &zero)
            };
            cts.push(ct);
            j += 1;
        }
        Query { cts }
    }

    /// One selector per requested index, in request order; the batch must
    /// hold exactly `BATCH_SIZE` indices.
    pub fn query_batch(&self, rng: &mut ChaCha20Rng, qk: &IntModCycloCRTEval, indices: &Vec<usize>) -> (r: Result<Vec<Query>, ConfigError>)
        requires
            self.wf(),
            qk.wf(),
            qk.params == self.ring(),
        ensures
            r is Err <==> indices.len() != self.scheme.params.base.BATCH_SIZE,
            r matches Ok(qs) ==> qs.len() == indices.len() && forall|t: int| 0 <= t < indices.len() ==> self.selects(#[trigger] qs@[t], *qk, indices@[t] as int),
    {
        if indices.len() != self.scheme.params.base.BATCH_SIZE {
            return Err(ConfigError::DimensionMismatch);
        }
        let mut qs: Vec<Query> = Vec::with_capacity(indices.len());
        let mut t: usize = 0;
        while t < indices.len()
            invariant
                self.wf(),
                qk.wf(),
                qk.params == self.ring(),
                t <= indices.len(),
                qs.len() == t,
                forall|u: int| 0 <= u < t ==> self.selects(#[trigger] qs@[u], *qk, indices@[u] as int),
            decreases indices.len() - t,
        {
            qs.push(self.query(rng, qk, indices[t]));
            t += 1;
        }
        Ok(qs)
    }

    /// The homomorphic dot product of the selector with the database.
    pub fn answer(&self, db: &Database, q: &Query) -> (r: RegevCiphertext)
        requires
            self.wf(),
            db.elems.len() == q.cts.len(),
            forall|j: int| 0 <= j < db.elems.len() ==> (#[trigger] db.elems@[j]).wf() && db.elems@[j].params == self.ring(),
            cols_wf(q.cts@, self.ring()),
        ensures
            r.wf_for(self.ring()),
            r.a.v1() == lin_comb(evals_of1(db.elems@), masks(q.cts@, 0, db.elems.len() as int, true), self.ring().n1(), self.ring().d as nat, db.elems.len() as int),
            r.a.v2() == lin_comb(evals_of2(db.elems@), masks(q.cts@, 0, db.elems.len() as int, false), self.ring().n2(), self.ring().d as nat, db.elems.len() as int),
            r.b.v1() == lin_comb(evals_of1(db.elems@), bodies(q.cts@, 0, db.elems.len() as int, true), self.ring().n1(), self.ring().d as nat, db.elems.len() as int),
            r.b.v2() == lin_comb(evals_of2(db.elems@), bodies(q.cts@, 0, db.elems.len() as int, false), self.ring().n2(), self.ring().d as nat, db.elems.len() as int),
    {
        combine(&db.elems, &q.cts, 0, &self.scheme.ring)
    }

    /// Decrypts the response and unpacks the record: the bytes held by
    /// `round(16·c / Q) mod 16` for the coefficients `c` of `a·s + b`.
    pub fn extract(&self, qk: &IntModCycloCRTEval, r: &RegevCiphertext) -> (bytes: Vec<u8>)
        requires
            self.wf(),
            qk.wf(),
            qk.params == self.ring(),
            r.wf_for(self.ring()),
        ensures
            bytes.len() == self.bytes_per_record,
            Seq::new(bytes.len() as nat, |k: int| bytes@[k] as int) == unpacked(
                rounded(phase1(*r, *qk), phase2(*r, *qk), self.ring(), self.scheme.params.Q as int),
                self.bytes_per_record as int,
            ),
    {
        let dec = self.scheme.decode_regev(qk, r);
        let m = self.scheme.round_down(&dec, RECORD_MODULUS);
        proof {
            assert(m.view().len() == self.ring().d);
            assert(dec.q_coeffs() == q_coeffs_of(phase1(*r, *qk), phase2(*r, *qk), self.ring()));
            assert(ints(m.coeff@) =~= rounded(phase1(*r, *qk), phase2(*r, *qk), self.ring(), self.scheme.params.Q as int));
            assert forall|i: int| 0 <= i < m.coeff.len() implies #[trigger] m.coeff@[i] < 16 by {
                assert(m.view()[i] == m.coeff@[i]);
            }
        }
        decode_record(&m.coeff, self.bytes_per_record)
    }
}

} // verus!
