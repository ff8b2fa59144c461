//! Batches of routes for nodes of up to 32 children: sizes, witnesses, and
//! the packed assignment of a whole batch.

use vstd::arithmetic::power2::{lemma2_to64, pow2};
use vstd::prelude::*;

use crate::backend::{
    asks_base, default_params, lone_verdict, make_params, packed_words, BaseQuestion, LoneQuestion,
    OpenedCore, PcsParams, R1csClaim, Relation, VerifyError,
};
use crate::bits::{all_bits, Zab};
use crate::content::is_compact;
use crate::math::{
    ceil_log2, law_next_pow2_is_least, lemma_pow2_is_pow2, log2_ceil, next_pow2, next_power_of_two,
    power_of_two,
};
use crate::packing::{append_block, blocks_filled, lemma_block_bits, zero_block_words};
use crate::r1cs::{block_holds, matrix_rows, BlockR1cs, F128};
use crate::route_f32::{
    block_is, build_block_r1cs_f32, digest_bits, fill_block_witness_f32, is_route_f32_system,
    law_checks_are_compactness, law_filled_block_satisfies, law_route_selects_spelled_child,
    rows_a, rows_b, Route, U64_PER_BLOCK,
};

verus! {

/// The least number of instances that a batch is padded to.
pub const MIN_LIGERITO_INSTANCES: usize = 128;

/// The least base-two logarithm of a committed assignment's length.
pub const MIN_LIGERITO_M: usize = 22;

/// The label that a route proof's transcript starts with.
pub const TRANSCRIPT_LABEL: &'static str = "mhot-route-f32-v0";

/// A batch of routes: how many there are, how many it is padded to, and the
/// constraint system.
#[derive(Clone, Debug)]
pub struct RouteF32Setup {
    pub n_instances: usize,
    pub setup_n_instances: usize,
    pub r1cs: BlockR1cs,
    pub pcs_params: PcsParams,
}

/// How many instances a batch of `n` is padded to.
pub open spec fn padded_instances(n: nat) -> nat {
    next_pow2(if n < 128 {
        128
    } else {
        n
    })
}

impl RouteF32Setup {
    /// Whether this is the setup of a batch of `n`.
    pub open spec fn is_setup_of(self, n: nat) -> bool {
        &&& self.n_instances == n
        &&& self.setup_n_instances == padded_instances(n)
        &&& is_route_f32_system(self.r1cs, ceil_log2(padded_instances(n)))
        &&& self.pcs_params == default_params(self.r1cs.m)
    }

    /// The setup of a batch of `n_instances`.
    pub fn new(n_instances: usize) -> (s: Self)
        requires
            n_instances >= 1,
            padded_instances(n_instances as nat) <= usize::MAX,
        ensures
            s.is_setup_of(n_instances as nat),
    {
        let setup_n_instances: usize = route_setup_n_instances(n_instances);
        let n_blocks_log: usize = log2_ceil(setup_n_instances);
        let r1cs = build_block_r1cs_f32(n_blocks_log);
        let pcs_params = make_params(r1cs.m);
        RouteF32Setup { n_instances, setup_n_instances, r1cs, pcs_params }
    }

    /// The base-two logarithm of how many instances the batch is padded to.
    pub fn n_blocks_log(&self) -> (n: usize)
        requires
            self.r1cs.k_log <= self.r1cs.m,
        ensures
            n == self.r1cs.m - self.r1cs.k_log,
    {
        self.r1cs.m - self.r1cs.k_log
    }

    /// The setup of a batch of `n_instances`, taken from `cache` where a batch
    /// padded to the same size was set up before.
    pub fn cached<'a>(n_instances: usize, cache: &'a mut SetupCache) -> (s: &'a Self)
        requires
            n_instances >= 1,
            padded_instances(n_instances as nat) <= usize::MAX,
            old(cache).well_formed(),
        ensures
            final(cache).well_formed(),
            cache_lookup(old(cache).entries@, n_instances as nat, final(cache).entries@, *s),
    {
        let i: usize = cache.find_or_insert(n_instances);
        &cache.entries[i]
    }

    /// As `cached`, for a verifier.
    pub fn cached_verify<'a>(n_instances: usize, cache: &'a mut SetupCache) -> (s: &'a Self)
        requires
            n_instances >= 1,
            padded_instances(n_instances as nat) <= usize::MAX,
            old(cache).well_formed(),
        ensures
            final(cache).well_formed(),
            cache_lookup(old(cache).entries@, n_instances as nat, final(cache).entries@, *s),
    {
        let i: usize = cache.find_or_insert(n_instances);
        &cache.entries[i]
    }

    /// Drops every cached setup.
    pub fn clear_setup_cache(cache: &mut SetupCache)
        ensures
            final(cache).entries@.len() == 0,
            final(cache).well_formed(),
    {
        cache.entries = Vec::new();
    }
}

/// Setups by the size that they are padded to.
pub struct SetupCache {
    pub entries: Vec<RouteF32Setup>,
}

/// Whether a setup is among the entries for batches padded as one of `n`.
pub open spec fn cached_at(entries: Seq<RouteF32Setup>, n: nat, i: int) -> bool {
    0 <= i < entries.len() && entries[i].setup_n_instances == padded_instances(n)
}

/// What looking up a batch of `n` does: an entry of its padded size is handed
/// out as it is, and where there is none, one is made for `n` and kept.
pub open spec fn cache_lookup(
    before: Seq<RouteF32Setup>,
    n: nat,
    after: Seq<RouteF32Setup>,
    s: RouteF32Setup,
) -> bool {
    if exists|i: int| cached_at(before, n, i) {
        after == before && exists|i: int| #[trigger] cached_at(before, n, i) && s == before[i]
    } else {
        s.is_setup_of(n) && after == before.push(s)
    }
}

impl SetupCache {
    /// No two entries are padded to one size, and each is the setup of some
    /// batch.
    pub open spec fn well_formed(self) -> bool {
        &&& forall|i: int, j: int|
            0 <= i < j < self.entries@.len() ==> self.entries@[i].setup_n_instances
                != self.entries@[j].setup_n_instances
        &&& forall|i: int|
            0 <= i < self.entries@.len() ==> (#[trigger] self.entries@[i]).is_setup_of(
                self.entries@[i].n_instances as nat,
            )
    }

    /// An empty cache.
    pub fn empty() -> (c: Self)
        ensures
            c.entries@.len() == 0,
            c.well_formed(),
    {
        SetupCache { entries: Vec::new() }
    }

    fn find_or_insert(&mut self, n_instances: usize) -> (at: usize)
        requires
            n_instances >= 1,
            padded_instances(n_instances as nat) <= usize::MAX,
            old(self).well_formed(),
        ensures
            final(self).well_formed(),
            at < final(self).entries@.len(),
            cache_lookup(
                old(self).entries@,
                n_instances as nat,
                final(self).entries@,
                final(self).entries@[at as int],
            ),
    {
        let setup_n: usize = route_setup_n_instances(n_instances);
        let n: usize = self.entries.len();
        for i in 0..n
            invariant
                n == self.entries@.len(),
                *self == *old(self),
                setup_n == padded_instances(n_instances as nat),
                self.well_formed(),
                forall|j: int| 0 <= j < i ==> !cached_at(self.entries@, n_instances as nat, j),
        {
            if self.entries[i].setup_n_instances == setup_n {
                assert(cached_at(self.entries@, n_instances as nat, i as int));
                return i;
            }
        }
        let s = RouteF32Setup::new(n_instances);
        self.entries.push(s);
        proof {
            assert forall|j: int| !cached_at(old(self).entries@, n_instances as nat, j) by {}
            assert forall|i: int, j: int| 0 <= i < j < self.entries@.len() implies self.entries@[i].setup_n_instances
                != self.entries@[j].setup_n_instances by {
                assert(!cached_at(old(self).entries@, n_instances as nat, i));
            }
        }
        n
    }
}

fn route_setup_n_instances(n_instances: usize) -> (n: usize)
    requires
        padded_instances(n_instances as nat) <= usize::MAX,
    ensures
        n == padded_instances(n_instances as nat),
{
    let n: usize = if n_instances < MIN_LIGERITO_INSTANCES {
        MIN_LIGERITO_INSTANCES
    } else {
        n_instances
    };
    next_power_of_two(n)
}

/// A route: a key, a mask and the digests of 32 children, as bits.
#[derive(Clone, Debug)]
pub struct RouteF32Witness {
    pub key: [bool; 256],
    pub mask: [bool; 256],
    pub children: Vec<[bool; 256]>,
}

impl RouteF32Witness {
    /// The route that a witness stands for.
    pub open spec fn route(self) -> Route {
        Route { key: self.key@, mask: self.mask@, children: digest_bits(self.children@) }
    }

    /// A route over exactly 32 children.
    pub fn new(key: [bool; 256], mask: [bool; 256], children: Vec<[bool; 256]>) -> (w: Self)
        requires
            children@.len() == 32,
        ensures
            w.key == key,
            w.mask == mask,
            w.children == children,
    {
        RouteF32Witness { key, mask, children }
    }

    /// A copy.
    pub fn copied(&self) -> (c: Self)
        ensures
            c.route() == self.route(),
            c.children@ == self.children@,
    {
        RouteF32Witness {
            key: self.key,
            mask: self.mask,
            children: vstd::slice::slice_to_vec(self.children.as_slice()),
        }
    }

    /// A route over up to 32 children; zeros take the place of the others.
    pub fn new_padded(
        key: [bool; 256],
        mask: [bool; 256],
        effective_children: &[[bool; 256]],
        effective_fanout: usize,
    ) -> (w: Self)
        requires
            effective_fanout <= 32,
            effective_children@.len() == effective_fanout,
        ensures
            w.key == key,
            w.mask == mask,
            w.children@.len() == 32,
            forall|i: int| 0 <= i < effective_fanout ==> w.children@[i] == effective_children@[i],
            forall|i: int|
                effective_fanout <= i < 32 ==> (#[trigger] w.children@[i])@ == Seq::new(
                    256,
                    |j: int| false,
                ),
    {
        let mut children: Vec<[bool; 256]> = vstd::slice::slice_to_vec(effective_children);
        for i in effective_fanout..32usize
            invariant
                effective_fanout <= 32,
                children@.len() == i,
                forall|k: int| 0 <= k < effective_fanout ==> children@[k] == effective_children@[k],
                forall|k: int|
                    effective_fanout <= k < i ==> (#[trigger] children@[k])@ == Seq::new(
                        256,
                        |j: int| false,
                    ),
        {
            let zero: [bool; 256] = [false; 256];
            assert(zero@ =~= Seq::new(256, |j: int| false));
            children.push(zero);
        }
        RouteF32Witness { key, mask, children }
    }
}

/// The route that stands in the blocks behind the batch: it selects the first
/// of 32 zero digests.
pub open spec fn padding_route() -> Route {
    Route {
        key: Seq::new(256, |i: int| false),
        mask: Seq::new(256, |i: int| i < 5),
        children: Seq::new(32, |c: int| Seq::new(256, |i: int| false)),
    }
}

fn padding_route_witness() -> (w: RouteF32Witness)
    ensures
        w.route() == padding_route(),
        w.children@.len() == 32,
{
    let key: [bool; 256] = [false; 256];
    let mut mask: [bool; 256] = [false; 256];
    mask[0] = true;
    mask[1] = true;
    mask[2] = true;
    mask[3] = true;
    mask[4] = true;
    let none: Vec<[bool; 256]> = Vec::new();
    let w = RouteF32Witness::new_padded(key, mask, none.as_slice(), 0);
    proof {
        assert(w.route().key =~= padding_route().key);
        assert(w.route().mask =~= padding_route().mask);
        assert(w.route().children =~= padding_route().children);
    }
    w
}

impl Route {
    /// Whether key and mask have as many bits as a key has, and each of the 32
    /// digests as many as a digest.
    pub open spec fn sized(self) -> bool {
        &&& self.key.len() == 256
        &&& self.mask.len() == 256
        &&& self.children.len() == 32
        &&& forall|c: int| 0 <= c < 32 ==> (#[trigger] self.children[c]).len() == 256
    }
}

/// The routes of a batch.
pub open spec fn routes_of(ws: Seq<RouteF32Witness>) -> Seq<Route> {
    ws.map_values(|w: RouteF32Witness| w.route())
}

/// The route in block `i` of a batch.
pub open spec fn batch_route(routes: Seq<Route>, i: int) -> Route {
    if i < routes.len() {
        routes[i]
    } else {
        padding_route()
    }
}

/// The cells of each block of a batch.
pub open spec fn batch_cells(routes: Seq<Route>) -> spec_fn(int) -> spec_fn(int) -> Zab {
    |i: int| batch_route(routes, i).cells()
}

/// Whether the three packed vectors hold the first `n` blocks of a batch.
pub open spec fn batch_filled(
    z: Seq<F128>,
    a: Seq<F128>,
    b: Seq<F128>,
    routes: Seq<Route>,
    n: int,
) -> bool {
    blocks_filled(z, a, b, 512, n, batch_cells(routes))
}

/// Packs the blocks of a batch, filled up with padding to `2^n_blocks_log`
/// blocks: the values, and the values of both factors.
pub fn generate_witness_with_ab_packed_and_lincheck(
    witnesses: &[RouteF32Witness],
    n_blocks_log: usize,
) -> (r: (Vec<F128>, Vec<F128>, Vec<F128>))
    requires
        pow2(n_blocks_log as nat) <= usize::MAX,
        witnesses@.len() <= pow2(n_blocks_log as nat),
        forall|i: int| 0 <= i < witnesses@.len() ==> (#[trigger] witnesses@[i]).children@.len() == 32,
    ensures
        batch_filled(r.0@, r.1@, r.2@, routes_of(witnesses@), pow2(n_blocks_log as nat) as int),
{
    let n: usize = power_of_two(n_blocks_log);
    let padding = padding_route_witness();
    let mut z: Vec<F128> = Vec::new();
    let mut a: Vec<F128> = Vec::new();
    let mut b: Vec<F128> = Vec::new();
    let ghost cells = batch_cells(routes_of(witnesses@));
    for i in 0..n
        invariant
            n == pow2(n_blocks_log as nat),
            witnesses@.len() <= n,
            padding.route() == padding_route(),
            padding.children@.len() == 32,
            forall|k: int|
                0 <= k < witnesses@.len() ==> (#[trigger] witnesses@[k]).children@.len() == 32,
            cells == batch_cells(routes_of(witnesses@)),
            blocks_filled(z@, a@, b@, 512, i as int, cells),
    {
        let mut zw: Vec<u64> = zero_block_words(U64_PER_BLOCK);
        let mut aw: Vec<u64> = zero_block_words(U64_PER_BLOCK);
        let mut bw: Vec<u64> = zero_block_words(U64_PER_BLOCK);
        let w: &RouteF32Witness = if i < witnesses.len() {
            &witnesses[i]
        } else {
            &padding
        };
        fill_block_witness_f32(
            &w.key,
            &w.mask,
            w.children.as_slice(),
            zw.as_mut_slice(),
            aw.as_mut_slice(),
            bw.as_mut_slice(),
        );
        assert(w.route() == batch_route(routes_of(witnesses@), i as int));
        append_block(
            &mut z,
            &mut a,
            &mut b,
            &zw,
            &aw,
            &bw,
            Ghost(i as int),
            Ghost(512),
            Ghost(cells),
        );
    }
    (z, a, b)
}

/// A proof for a batch of routes.
pub struct RouteF32Proof {
    pub zc_proof: Vec<u8>,
    pub lc_proof: Vec<u8>,
    pub pcs_open: Vec<u8>,
    pub commitment: crate::backend::Commitment,
    pub claim: R1csClaim,
    pub n_instances: usize,
    pub setup_n_instances: usize,
}

/// Whether a proof states what the proof system made of a batch, and its size.
pub open spec fn states_batch(proof: RouteF32Proof, setup: RouteF32Setup, opened: OpenedCore) -> bool {
    &&& proof.zc_proof == opened.zc_proof
    &&& proof.lc_proof == opened.lc_proof
    &&& proof.pcs_open == opened.pcs_open
    &&& proof.commitment == opened.commitment
    &&& proof.claim == opened.claim
    &&& proof.n_instances == setup.n_instances
    &&& proof.setup_n_instances == setup.setup_n_instances
}

/// The proof of a batch, given what the proof system makes of its packed
/// assignment.
pub fn prove_route_f32(
    setup: &RouteF32Setup,
    witnesses: &[RouteF32Witness],
    opened: OpenedCore,
) -> (proof: RouteF32Proof)
    requires
        witnesses@.len() == setup.n_instances,
    ensures
        states_batch(proof, *setup, opened),
{
    RouteF32Proof {
        zc_proof: opened.zc_proof,
        lc_proof: opened.lc_proof,
        pcs_open: opened.pcs_open,
        commitment: opened.commitment,
        claim: opened.claim,
        n_instances: setup.n_instances,
        setup_n_instances: setup.setup_n_instances,
    }
}

/// Whether this is the question about the proof of a batch.
pub open spec fn is_route_question(q: LoneQuestion, setup: RouteF32Setup, proof: RouteF32Proof) -> bool {
    &&& q.label@ == "mhot-route-f32-v0"@
    &&& asks_base(
        q.base,
        Relation::Route { n: setup.n_instances },
        proof.zc_proof,
        proof.lc_proof,
        proof.pcs_open,
        proof.commitment,
    )
    &&& q.base.claims@.len() == 0
    &&& q.base.fork@.len() == 0
}

/// What the proof system is asked about the proof of a batch.
pub fn route_question<'a>(setup: &RouteF32Setup, proof: &'a RouteF32Proof) -> (q: LoneQuestion<'a>)
    requires
        proof.n_instances == setup.n_instances,
        proof.setup_n_instances == setup.setup_n_instances,
    ensures
        is_route_question(q, *setup, *proof),
{
    LoneQuestion {
        label: "mhot-route-f32-v0",
        base: BaseQuestion {
            relation: Relation::Route { n: setup.n_instances },
            zc: &proof.zc_proof,
            lc: &proof.lc_proof,
            pcs: &proof.pcs_open,
            commitment: proof.commitment,
            claims: Vec::new(),
            fork: Vec::new(),
        },
    }
}

/// Decides on the proof of a batch, given what the proof system says to the
/// core and to the opening of `route_question`. The opening does not matter where
/// the core is rejected.
pub fn verify_route_f32(
    setup: &RouteF32Setup,
    proof: &RouteF32Proof,
    core: Result<R1csClaim, VerifyError>,
    opening_ok: bool,
) -> (r: Result<R1csClaim, VerifyError>)
    requires
        proof.n_instances == setup.n_instances,
        proof.setup_n_instances == setup.setup_n_instances,
    ensures
        r == lone_verdict(core, opening_ok),
{
    match core {
        Err(e) => Err(e),
        Ok(claim) => if opening_ok {
            Ok(claim)
        } else {
            Err(VerifyError::PcsAb)
        },
    }
}

/// The proof of a batch is of its size, what is asked about it is what the
/// proof system made of it, and where that is accepted it verifies with the
/// claim that it states.
pub proof fn law_batch_proof_verifies(
    setup: RouteF32Setup,
    n: nat,
    proof: RouteF32Proof,
    opened: OpenedCore,
    q: LoneQuestion,
)
    requires
        setup.is_setup_of(n),
        states_batch(proof, setup, opened),
        is_route_question(q, setup, proof),
    ensures
        proof.n_instances == n,
        proof.setup_n_instances == padded_instances(n),
        q.base.relation == (Relation::Route { n: n as usize }),
        *q.base.zc == opened.zc_proof && *q.base.lc == opened.lc_proof && *q.base.pcs
            == opened.pcs_open && q.base.commitment == opened.commitment,
        lone_verdict(Ok(opened.claim), true) == Ok::<R1csClaim, VerifyError>(proof.claim),
{
}

/// The padding route passes all checks.
pub proof fn lemma_padding_route_ok()
    ensures
        is_compact(padding_route().key, padding_route().mask),
        padding_route().all_ok(),
{
    let r = padding_route();
    law_checks_are_compactness(r);
    assert(r.mask_ok(254)) by {
        lemma_padding_mask_ok(254);
    }
    assert(r.key_ok(255)) by {
        lemma_padding_key_ok(255);
    }
}

proof fn lemma_padding_mask_ok(n: int)
    requires
        0 <= n <= 254,
    ensures
        padding_route().mask_ok(n),
    decreases n,
{
    if n > 0 {
        lemma_padding_mask_ok(n - 1);
    }
}

proof fn lemma_padding_key_ok(n: int)
    requires
        0 <= n <= 255,
    ensures
        padding_route().key_ok(n),
    decreases n,
{
    if n > 0 {
        lemma_padding_key_ok(n - 1);
    }
}

/// Whether all routes of a batch have a compact mask and key.
pub open spec fn batch_compact(routes: Seq<Route>) -> bool {
    forall|i: int| 0 <= i < routes.len() ==> #[trigger] is_compact(routes[i].key, routes[i].mask)
}

/// The packed assignment of a batch satisfies the constraint system of its
/// setup, pin included, exactly when all its routes are compact.
pub proof fn law_batch_satisfies(
    setup: RouteF32Setup,
    routes: Seq<Route>,
    z: Seq<F128>,
    a: Seq<F128>,
    b: Seq<F128>,
    n: nat,
)
    requires
        setup.is_setup_of(n),
        routes.len() == n,
        forall|i: int| 0 <= i < n ==> (#[trigger] routes[i]).sized(),
        batch_filled(z, a, b, routes, setup.r1cs.blocks() as int),
    ensures
        setup.r1cs.holds(all_bits(packed_words(z))) <==> batch_compact(routes),
        setup.r1cs.pinned(all_bits(packed_words(z))),
{
    let bits = all_bits(packed_words(z));
    let blocks = setup.r1cs.blocks() as int;
    let ra = matrix_rows(setup.r1cs.a_0);
    let rb = matrix_rows(setup.r1cs.b_0);
    assert(ra == rows_a() && rb == rows_b());
    assert(pow2(15) == 32768) by {
        lemma2_to64();
    }
    assert forall|blk: int| 0 <= blk < blocks implies (#[trigger] block_holds(
        ra,
        rb,
        32768,
        bits,
        blk * 32768,
    ) <==> (blk < n ==> is_compact(routes[blk].key, routes[blk].mask))) && bits[blk * 32768 + 256] by {
        let r = batch_route(routes, blk);
        lemma_block_is(z, a, b, routes, blocks, blk);
        law_filled_block_satisfies(r, bits, blk * 32768);
        law_route_selects_spelled_child(r, 0);
        law_checks_are_compactness(r);
        lemma_padding_route_ok();
    }
    if setup.r1cs.holds(bits) {
        assert forall|i: int| 0 <= i < routes.len() implies #[trigger] is_compact(
            routes[i].key,
            routes[i].mask,
        ) by {
            crate::math::lemma_ceil_log2(if n < 128 {
                128
            } else {
                n
            });
            assert(n <= blocks) by {
                lemma_batch_fits(setup, n);
            }
            assert(block_holds(ra, rb, 32768, bits, i * 32768));
        }
    }
    if batch_compact(routes) {
        assert forall|blk: int| 0 <= blk < blocks implies #[trigger] block_holds(
            ra,
            rb,
            32768,
            bits,
            blk * 32768,
        ) by {
            if blk < n {
                assert(is_compact(routes[blk].key, routes[blk].mask));
            }
        }
    }
    assert(setup.r1cs.pinned(bits)) by {
        assert forall|blk: int| 0 <= blk < setup.r1cs.blocks() implies #[trigger] bits[blk * pow2(
            setup.r1cs.k_log as nat,
        ) + 256] by {
            let _ = block_holds(ra, rb, 32768, bits, blk * 32768);
        }
    }
}

/// A batch is padded to as many blocks as the system has.
proof fn lemma_batch_fits(setup: RouteF32Setup, n: nat)
    requires
        setup.is_setup_of(n),
    ensures
        setup.r1cs.blocks() == padded_instances(n),
        n <= setup.r1cs.blocks(),
{
    let k = if n < 128 {
        128
    } else {
        n
    };
    crate::math::lemma_ceil_log2(k);
    crate::math::lemma_is_pow2_log(padded_instances(n));
}

/// Block `blk` of the packed values holds the cells of its route.
proof fn lemma_block_is(
    z: Seq<F128>,
    a: Seq<F128>,
    b: Seq<F128>,
    routes: Seq<Route>,
    n: int,
    blk: int,
)
    requires
        batch_filled(z, a, b, routes, n),
        0 <= blk < n,
    ensures
        block_is(batch_route(routes, blk), all_bits(packed_words(z)), blk * 32768),
{
    let bits = all_bits(packed_words(z));
    let r = batch_route(routes, blk);
    assert forall|p: int| 0 <= p < 32768 implies #[trigger] bits[blk * 32768 + p] == r.cell(p).z by {
        lemma_block_bits(z, a, b, 512, n, batch_cells(routes), blk, p);
    }
}

/// The number of routes is padded to the least power of two that is at least
/// 128 and at least `n`.
pub proof fn law_padded_instances(n: nat, k: nat)
    ensures
        exists|d: nat| padded_instances(n) == #[trigger] pow2(d),
        n <= padded_instances(n) && 128 <= padded_instances(n),
        n <= pow2(k) && 128 <= pow2(k) ==> padded_instances(n) <= pow2(k),
{
    let m = if n < 128 {
        128
    } else {
        n
    };
    law_next_pow2_is_least(m, k);
    assert(padded_instances(n) == pow2(ceil_log2(m)));
}

/// A setup that comes out of a cache is for as many padded routes as were asked
/// for; what was in the cache stays, and at most the new setup joins it.
pub proof fn law_cached_setup_serves(
    before: SetupCache,
    n: nat,
    after: Seq<RouteF32Setup>,
    s: RouteF32Setup,
)
    requires
        before.well_formed(),
        cache_lookup(before.entries@, n, after, s),
    ensures
        s.setup_n_instances == padded_instances(n),
        s.is_setup_of(s.n_instances as nat),
        after.contains(s),
        before.entries@.len() <= after.len() <= before.entries@.len() + 1,
        forall|i: int| 0 <= i < before.entries@.len() ==> after[i] == before.entries@[i],
        (forall|i: int|
            0 <= i < before.entries@.len() ==> (#[trigger] before.entries@[i]).setup_n_instances
                != padded_instances(n)) <==> after.len() == before.entries@.len() + 1,
{
    let kept = before.entries@;
    if exists|i: int| cached_at(kept, n, i) {
        let i = choose|i: int| #[trigger] cached_at(kept, n, i) && s == kept[i];
        assert(kept[i].is_setup_of(kept[i].n_instances as nat));
    } else {
        assert(after[kept.len() as int] == s);
        assert forall|i: int| 0 <= i < kept.len() implies (#[trigger] kept[i]).setup_n_instances
            != padded_instances(n) by {
            assert(!cached_at(kept, n, i));
        }
    }
}

/// The bits of a batch: block `i` of 32768 bits holds the cells of route `i`,
/// and past the last route those of a blank route.
pub proof fn law_batch_bit(
    z: Seq<F128>,
    a: Seq<F128>,
    b: Seq<F128>,
    routes: Seq<Route>,
    n: int,
    i: int,
    p: int,
)
    requires
        batch_filled(z, a, b, routes, n),
        0 <= i < n,
        0 <= p < 32768,
    ensures
        ({
            let cell = if i < routes.len() {
                routes[i].cell(p)
            } else {
                (Route {
                    key: Seq::new(256, |j: int| false),
                    mask: Seq::new(256, |j: int| j < 5),
                    children: Seq::new(32, |c: int| Seq::new(256, |j: int| false)),
                }).cell(p)
            };
            &&& all_bits(packed_words(z))[32768 * i + p] == cell.z
            &&& all_bits(packed_words(a))[32768 * i + p] == cell.a
            &&& all_bits(packed_words(b))[32768 * i + p] == cell.b
        }),
{
    lemma_block_bits(z, a, b, 512, n, batch_cells(routes), i, p);
    let w: nat = 512;
    assert(i * (64 * w) + p == 32768 * i + p) by (nonlinear_arith)
        requires
            w == 512,
    ;
}

/// What is asked about a proof of routes: its parts, for as many routes as the
/// setup is for, and no claim beside.
pub proof fn law_question_asks_proof(q: LoneQuestion, setup: RouteF32Setup, proof: RouteF32Proof)
    requires
        is_route_question(q, setup, proof),
    ensures
        q.label@ == "mhot-route-f32-v0"@,
        q.base.relation == (Relation::Route { n: setup.n_instances }),
        *q.base.zc == proof.zc_proof && *q.base.lc == proof.lc_proof,
        *q.base.pcs == proof.pcs_open && q.base.commitment == proof.commitment,
        q.base.claims@.len() == 0 && q.base.fork@.len() == 0,
{
}

/// A setup for `n` routes: blocks of `2^15` bits, as many as the padded number
/// of routes, the bit 256 of each pinned, over the matrices of the route.
pub proof fn law_setup_fields(s: RouteF32Setup, n: nat)
    requires
        s.is_setup_of(n),
    ensures
        s.n_instances == n,
        pow2((s.r1cs.m - 15) as nat) == s.setup_n_instances,
        s.r1cs.k_log == 15 && s.r1cs.k_skip == 6 && s.r1cs.useful_bits == 18944,
        s.r1cs.const_pin == Some(256usize),
        matrix_rows(s.r1cs.a_0) == rows_a(),
        matrix_rows(s.r1cs.b_0) == rows_b(),
        s.pcs_params.m == s.r1cs.m && s.pcs_params.log_inv_rate == 1
            && s.pcs_params.log_batch_size == 6,
{
    law_padded_instances(n, 0);
    let d = choose|d: nat| padded_instances(n) == #[trigger] pow2(d);
    lemma_pow2_is_pow2(d);
}

/// The routes of witnesses, one for each: its key, its mask and its children.
pub proof fn law_witness_routes(ws: Seq<RouteF32Witness>, i: int, c: int)
    requires
        0 <= i < ws.len(),
        0 <= c < ws[i].children@.len(),
    ensures
        routes_of(ws).len() == ws.len(),
        routes_of(ws)[i].key == ws[i].key@,
        routes_of(ws)[i].mask == ws[i].mask@,
        routes_of(ws)[i].children.len() == ws[i].children@.len(),
        routes_of(ws)[i].children[c] == ws[i].children@[c]@,
{
}

} // verus!
