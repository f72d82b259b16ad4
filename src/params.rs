//! Scheme parameters: the factory's free choices, the full parameter set,
//! and the quantities derived from it once, at configuration time.
use crate::crt::ConfigError;
use crate::gadget::gadget_base;
use crate::modular::pow_mod;
use vstd::arithmetic::div_mod::*;
use vstd::arithmetic::power::*;
use vstd::prelude::*;

verus! {

/// Parameters of the integer (matrix) variant of the scheme: an `N x M`
/// public matrix, plaintext modulus `P`, ciphertext modulus `Q`, and a gadget
/// of `G_LEN` digits in base `G_BASE`; `N_MINUS_1` is `N - 1`.
#[allow(non_snake_case)]
#[derive(Debug, Clone, Copy, PartialEq, Eq, Structural)]
pub struct IntParams {
    pub N: usize,
    pub M: usize,
    pub P: u64,
    pub Q: u64,
    pub G_BASE: u64,
    pub G_LEN: usize,
    pub N_MINUS_1: usize,
    pub NOISE_WIDTH_MILLIONTHS: u64,
}

impl IntParams {
    /// What `verify_int_params` checks: `N_MINUS_1 + 1 = N`, `P <= Q`, the
    /// gadget covers `Q` (`Q < G_BASE^G_LEN`), and `M >= N·G_LEN`.
    pub open spec fn valid(&self) -> bool {
        &&& self.N_MINUS_1 + 1 == self.N
        &&& self.P <= self.Q
        &&& self.G_BASE >= 2
        &&& self.Q < pow(self.G_BASE as int, self.G_LEN as nat)
        &&& self.G_LEN * self.N <= self.M
    }
}

/// Checks an integer parameter set once, before any arithmetic runs.
pub fn verify_int_params(params: &IntParams) -> (r: Result<(), ConfigError>)
    ensures
        r is Ok <==> params.valid(),
{
    if params.N_MINUS_1 as u128 + 1 != params.N as u128 {
        return Err(ConfigError::DimensionMismatch);
    }
    if params.P > params.Q {
        return Err(ConfigError::PlaintextTooLarge);
    }
    if params.G_BASE < 2 {
        return Err(ConfigError::GadgetTooShort);
    }
    // G_LEN >= log Q: dividing Q by the base G_LEN times leaves nothing
    let mut x = params.Q;
    let mut i: usize = 0;
    proof {
        lemma_pow0(params.G_BASE as int);
    }
    while i < params.G_LEN
        invariant
            params.G_BASE >= 2,
            i <= params.G_LEN,
            x as int == (params.Q as int) / pow(params.G_BASE as int, i as nat),
        decreases params.G_LEN - i,
    {
        proof {
            lemma_pow_positive(params.G_BASE as int, i as nat);
            lemma_div_denominator(params.Q as int, pow(params.G_BASE as int, i as nat), params.G_BASE as int);
            lemma_pow_adds(params.G_BASE as int, i as nat, 1);
            lemma_pow1(params.G_BASE as int);
        }
        x = x / params.G_BASE;
        i += 1;
    }
    proof {
        lemma_pow_positive(params.G_BASE as int, params.G_LEN as nat);
        let g = pow(params.G_BASE as int, params.G_LEN as nat);
        if params.Q < g {
            lemma_basic_div(params.Q as int, g);
        } else {
            lemma_div_non_zero(params.Q as int, g);
        }
    }
    if x != 0 {
        return Err(ConfigError::GadgetTooShort);
    }
    // M >= N * G_LEN >= N log Q
    proof {
        assert(params.G_LEN * params.N <= u64::MAX as int * u64::MAX as int) by (nonlinear_arith)
            requires
                params.G_LEN <= u64::MAX,
                params.N <= u64::MAX,
        ;
    }
    if params.G_LEN as u128 * params.N as u128 > params.M as u128 {
        return Err(ConfigError::DimensionMismatch);
    }
    Ok(())
}

/// The parameters that a deployment chooses; `expand` fills in the rest.
#[allow(non_snake_case)]
#[derive(Debug, Clone, Copy, PartialEq, Eq, Structural)]
pub struct FactoryParams {
    pub BATCH_SIZE: usize,
    pub N_VEC: usize,
    pub P: u64,
    pub D_RECORD: usize,
    pub NU1: usize,
    pub NU2: usize,
    pub Q_SWITCH1: u64,
    pub Q_SWITCH2: u64,
    pub D_SWITCH: usize,
    pub WIDTH_SWITCH_MILLIONTHS: u64,
}

/// The full parameter set of the scheme.
#[allow(non_snake_case)]
#[derive(Debug, Clone, Copy, PartialEq, Eq, Structural)]
pub struct RespireParams {
    pub Q_A: u64,
    pub Q_B: u64,
    pub D: usize,
    pub T_GSW: usize,
    pub T_REGEV_TO_GSW: usize,
    pub T_AUTO_REGEV: usize,
    pub T_AUTO_GSW: usize,
    pub T_SCAL_TO_VEC: usize,
    pub BATCH_SIZE: usize,
    pub N_VEC: usize,
    pub ERROR_WIDTH_MILLIONTHS: u64,
    pub ERROR_WIDTH_VEC_MILLIONTHS: u64,
    pub ERROR_WIDTH_SWITCH_MILLIONTHS: u64,
    pub SECRET_BOUND: u64,
    pub SECRET_WIDTH_VEC_MILLIONTHS: u64,
    pub SECRET_WIDTH_SWITCH_MILLIONTHS: u64,
    pub P: u64,
    pub D_RECORD: usize,
    pub NU1: usize,
    pub NU2: usize,
    pub Q_SWITCH1: u64,
    pub Q_SWITCH2: u64,
    pub D_SWITCH: usize,
}

/// The parameter set with the modulus `Q` and the gadget bases derived.
#[allow(non_snake_case)]
#[derive(Debug, Clone, Copy, PartialEq, Eq, Structural)]
pub struct RespireParamsExpanded {
    pub base: RespireParams,
    pub Q: u64,
    pub Z_GSW: u64,
    pub Z_REGEV_TO_GSW: u64,
    pub Z_AUTO_REGEV: u64,
    pub Z_AUTO_GSW: u64,
    pub Z_SCAL_TO_VEC: u64,
}

/// `z` is the gadget base for `t` digits modulo `q`: the least `z >= 2`
/// with `z^t >= q`.
pub open spec fn is_gadget_base(z: int, t: int, q: int) -> bool {
    &&& z >= 2
    &&& pow(z, t as nat) >= q
    &&& (z == 2 || pow(z - 1, t as nat) < q)
}

impl FactoryParams {
    /// The full parameter set: fixed moduli, degree and gadget lengths
    /// together with this factory's choices.
    pub fn expand(&self) -> (r: RespireParams)
        ensures
            r == (RespireParams {
                Q_A: 268369921,
                Q_B: 249561089,
                D: 2048,
                T_GSW: 8,
                T_REGEV_TO_GSW: 4,
                T_AUTO_REGEV: 3,
                T_AUTO_GSW: 9,
                T_SCAL_TO_VEC: 8,
                BATCH_SIZE: self.BATCH_SIZE,
                N_VEC: self.N_VEC,
                ERROR_WIDTH_MILLIONTHS: 9_900_000,
                ERROR_WIDTH_VEC_MILLIONTHS: 9_900_000,
                ERROR_WIDTH_SWITCH_MILLIONTHS: self.WIDTH_SWITCH_MILLIONTHS,
                SECRET_BOUND: 7,
                SECRET_WIDTH_VEC_MILLIONTHS: 9_900_000,
                SECRET_WIDTH_SWITCH_MILLIONTHS: self.WIDTH_SWITCH_MILLIONTHS,
                P: self.P,
                D_RECORD: self.D_RECORD,
                NU1: self.NU1,
                NU2: self.NU2,
                Q_SWITCH1: self.Q_SWITCH1,
                Q_SWITCH2: self.Q_SWITCH2,
                D_SWITCH: self.D_SWITCH,
            }),
    {
        RespireParams {
            Q_A: 268369921,
            Q_B: 249561089,
            D: 2048,
            T_GSW: 8,
            T_REGEV_TO_GSW: 4,
            T_AUTO_REGEV: 3,
            T_AUTO_GSW: 9,
            T_SCAL_TO_VEC: 8,
            BATCH_SIZE: self.BATCH_SIZE,
            N_VEC: self.N_VEC,
            ERROR_WIDTH_MILLIONTHS: 9_900_000,
            ERROR_WIDTH_VEC_MILLIONTHS: 9_900_000,
            ERROR_WIDTH_SWITCH_MILLIONTHS: self.WIDTH_SWITCH_MILLIONTHS,
            SECRET_BOUND: 7,
            SECRET_WIDTH_VEC_MILLIONTHS: 9_900_000,
            SECRET_WIDTH_SWITCH_MILLIONTHS: self.WIDTH_SWITCH_MILLIONTHS,
            P: self.P,
            D_RECORD: self.D_RECORD,
            NU1: self.NU1,
            NU2: self.NU2,
            Q_SWITCH1: self.Q_SWITCH1,
            Q_SWITCH2: self.Q_SWITCH2,
            D_SWITCH: self.D_SWITCH,
        }
    }
}

impl RespireParams {
    /// The conditions that `expand` checks.
    pub open spec fn valid(&self) -> bool {
        &&& 1 < self.Q_A <= u32::MAX
        &&& 1 < self.Q_B <= u32::MAX
        &&& 2 <= self.P <= self.Q_A * self.Q_B
        &&& 1 <= self.T_GSW
        &&& 1 <= self.T_REGEV_TO_GSW
        &&& 1 <= self.T_AUTO_REGEV
        &&& 1 <= self.T_AUTO_GSW
        &&& 1 <= self.T_SCAL_TO_VEC
    }

    /// Validates the parameter set and derives `Q = Q_A·Q_B` and the
    /// gadget base for each gadget length.
    pub fn expand(&self) -> (r: Result<RespireParamsExpanded, ConfigError>)
        ensures
            r is Ok <==> self.valid(),
            r matches Ok(e) ==> {
                &&& e.base == *self
                &&& e.Q == self.Q_A * self.Q_B
                &&& is_gadget_base(e.Z_GSW as int, self.T_GSW as int, e.Q as int)
                &&& is_gadget_base(e.Z_REGEV_TO_GSW as int, self.T_REGEV_TO_GSW as int, e.Q as int)
                &&& is_gadget_base(e.Z_AUTO_REGEV as int, self.T_AUTO_REGEV as int, e.Q as int)
                &&& is_gadget_base(e.Z_AUTO_GSW as int, self.T_AUTO_GSW as int, e.Q as int)
                &&& is_gadget_base(e.Z_SCAL_TO_VEC as int, self.T_SCAL_TO_VEC as int, e.Q as int)
            },
    {
        if !(1 < self.Q_A && self.Q_A <= 0xffff_ffff && 1 < self.Q_B && self.Q_B <= 0xffff_ffff) {
            return Err(ConfigError::ModulusOutOfRange);
        }
        proof {
            assert(self.Q_A * self.Q_B <= u64::MAX) by (nonlinear_arith)
                requires
                    self.Q_A <= u32::MAX,
                    self.Q_B <= u32::MAX,
            ;
            assert(self.Q_A * self.Q_B >= 4) by (nonlinear_arith)
                requires
                    self.Q_A >= 2,
                    self.Q_B >= 2,
            ;
        }
        let q = self.Q_A * self.Q_B;
        if self.P < 2 || self.P > q {
            return Err(ConfigError::PlaintextTooLarge);
        }
        if self.T_GSW < 1 || self.T_REGEV_TO_GSW < 1 || self.T_AUTO_REGEV < 1 || self.T_AUTO_GSW < 1
            || self.T_SCAL_TO_VEC < 1 {
            return Err(ConfigError::GadgetTooShort);
        }
        Ok(RespireParamsExpanded {
            base: *self,
            Q: q,
            Z_GSW: gadget_base(q, self.T_GSW as u64),
            Z_REGEV_TO_GSW: gadget_base(q, self.T_REGEV_TO_GSW as u64),
            Z_AUTO_REGEV: gadget_base(q, self.T_AUTO_REGEV as u64),
            Z_AUTO_GSW: gadget_base(q, self.T_AUTO_GSW as u64),
            Z_SCAL_TO_VEC: gadget_base(q, self.T_SCAL_TO_VEC as u64),
        })
    }
}

/// The candidate root that `g` gives: `g^((n-1)/(2d)) mod n`.
pub open spec fn root_of(g: int, d: int, n: int) -> int {
    pow(g, ((n - 1) / (2 * d)) as nat) % n
}

/// The candidate from `g` is a root of `x^d + 1` modulo `n`.
pub open spec fn root_works(g: int, d: int, n: int) -> bool {
    pow(root_of(g, d, n), d as nat) % n == n - 1
}

/// The first candidate `g' >= g` below `min(1000, n)` that gives a root, as
/// the root it gives.
pub open spec fn first_root_from(d: int, n: int, g: int) -> Option<int>
    decreases 1000 - g,
{
    if g >= 1000 || g >= n {
        None
    } else if root_works(g, d, n) {
        Some(root_of(g, d, n))
    } else {
        first_root_from(d, n, g + 1)
    }
}

/// What the root search finds: nothing when `2d` does not divide `n - 1`,
/// else the root of the least candidate `g` in `[2, min(1000, n))` that gives one.
pub open spec fn first_root(d: int, n: int) -> Option<int> {
    if (n - 1) % (2 * d) != 0 {
        None
    } else {
        first_root_from(d, n, 2)
    }
}

/// The root that the search finds, or `0`.
pub open spec fn found_root(d: int, n: int) -> int {
    match first_root(d, n) {
        Some(w) => w,
        None => 0,
    }
}

/// A root `w` of `x^d + 1` modulo `n`, searched among `g^((n-1)/(2d))` for
/// the candidates `2 <= g < min(1000, n)` in increasing order.
pub fn find_root(d: u64, n: u64) -> (r: Option<u64>)
    requires
        1 <= d <= 0x10_0000,
        1 < n,
    ensures
        (r is Some) == (first_root(d as int, n as int) is Some),
        r matches Some(w) ==> first_root(d as int, n as int) == Some(w as int),
        r matches Some(w) ==> w < n && pow(w as int, d as nat) % (n as int) == n - 1,
{
    if (n - 1) % (2 * d) != 0 {
        return None;
    }
    let e = (n - 1) / (2 * d);
    let mut g: u64 = 2;
    while g < 1000 && g < n
        invariant
            1 <= d <= 0x10_0000,
            1 < n,
            2 <= g,
            e == (n - 1) / (2 * d),
            (n - 1) % (2 * d) == 0,
            first_root(d as int, n as int) == first_root_from(d as int, n as int, g as int),
        decreases 1000 - g,
    {
        let w = pow_mod(g, e, n);
        if pow_mod(w, d, n) == n - 1 {
            return Some(w);
        }
        g += 1;
    }
    None
}

/// Whether the 256-bit vector path of the multiply-accumulate is compiled
/// in: the library's accumulate is scalar everywhere, with the deferred
/// reduction path standing for the vector one, so it never is.
pub fn has_avx2() -> (r: bool)
    ensures
        !r,
{
    false
}

} // verus!
