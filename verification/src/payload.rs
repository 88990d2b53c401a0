//! The fixed-size payload that every node of every workload carries.
use vstd::prelude::*;

use crate::modular::{lemma_wrapping_add_is_wrapped_sum, wrap};

verus! {

/// The exact, unwrapped contribution of the payload with identifier `id` to a
/// checksum: the identifier plus its low byte.
pub open spec fn payload_weight(id: int) -> int {
    id + id % 256
}

/// The exact sum of the payload weights of the identifiers, in order.
pub open spec fn ids_total(ids: Seq<nat>) -> int
    decreases ids.len(),
{
    if ids.len() == 0 {
        0
    } else {
        ids_total(ids.drop_last()) + payload_weight(ids.last() as int)
    }
}

/// The exact, unwrapped checksum of every prefix grows by the weight of the
/// next identifier.
pub proof fn lemma_ids_total_step(ids: Seq<nat>, k: int)
    requires
        0 <= k < ids.len(),
    ensures
        ids_total(ids.take(k + 1)) == ids_total(ids.take(k)) + payload_weight(ids[k] as int),
{
    assert(ids.take(k + 1).drop_last() =~= ids.take(k));
}

/// The exact sum of the payload weights of the identifiers
/// `first .. first + len`.
pub open spec fn span_total(first: nat, len: nat) -> int
    decreases len,
{
    if len == 0 {
        0
    } else {
        span_total(first, (len - 1) as nat) + payload_weight(first + len - 1)
    }
}

/// The exact checksum of the payloads `0..n` in closed form: twice the sum of
/// the identifiers, `n * (n - 1)`, plus twice the sum of their low bytes, which
/// is `65280` for every full run of 256 identifiers and `r * (r - 1)` for the
/// `r = n % 256` that follow.
pub proof fn lemma_span_total_closed_form(n: nat)
    ensures
        2 * span_total(0, n) == n * (n - 1) + (n / 256) * 65280 + (n % 256) * ((n % 256) - 1),
    decreases n,
{
    if n > 0 {
        let m = (n - 1) as nat;
        lemma_span_total_closed_form(m);
        let q = m / 256;
        let r = m % 256;
        assert(span_total(0, n) == span_total(0, m) + m + r);
        assert(n * (n - 1) == m * (m - 1) + 2 * m) by (nonlinear_arith)
            requires
                n == m + 1,
        ;
        if r < 255 {
            assert(n / 256 == q && n % 256 == r + 1);
            let r1 = n % 256;
            assert(r1 * (r1 - 1) == r * (r - 1) + 2 * r) by (nonlinear_arith)
                requires
                    r1 == r + 1,
            ;
            assert((n / 256) * 65280 == q * 65280);
        } else {
            assert(n / 256 == q + 1 && n % 256 == 0);
            let r1 = n % 256;
            assert(r1 * (r1 - 1) == 0) by (nonlinear_arith)
                requires
                    r1 == 0,
            ;
            assert(r * (r - 1) == 64770) by (nonlinear_arith)
                requires
                    r == 255,
            ;
            assert((n / 256) * 65280 == q * 65280 + 65280) by (nonlinear_arith)
                requires
                    n / 256 == q + 1,
            ;
        }
    } else {
        assert(span_total(0, 0) == 0);
        assert(n * (n - 1) == 0 && (n / 256) * 65280 == 0 && (n % 256) * ((n % 256) - 1) == 0)
            by (nonlinear_arith)
            requires
                n == 0,
        ;
    }
}

/// The sum over a single identifier is its payload weight.
pub proof fn lemma_ids_total_single(id: nat)
    ensures
        ids_total(seq![id]) == payload_weight(id as int),
{
    assert(seq![id].drop_last() =~= Seq::<nat>::empty());
    assert(ids_total(Seq::<nat>::empty()) == 0);
}

/// The sum over a concatenation is the sum of the sums.
pub proof fn lemma_ids_total_concat(a: Seq<nat>, b: Seq<nat>)
    ensures
        ids_total(a + b) == ids_total(a) + ids_total(b),
    decreases b.len(),
{
    if b.len() == 0 {
        assert(a + b =~= a);
    } else {
        assert((a + b).drop_last() =~= a + b.drop_last());
        lemma_ids_total_concat(a, b.drop_last());
    }
}

/// The sum over the identifiers `first .. first + len`, listed in order.
pub proof fn lemma_ids_total_span(first: nat, len: nat)
    ensures
        ids_total(Seq::new(len, |i: int| (first + i) as nat)) == span_total(first, len),
    decreases len,
{
    if len > 0 {
        let ids = Seq::new(len, |i: int| (first + i) as nat);
        assert(ids.drop_last() =~= Seq::new((len - 1) as nat, |i: int| (first + i) as nat));
        lemma_ids_total_span(first, (len - 1) as nat);
    }
}

/// A node payload: an identifier and 24 copies of the identifier's low byte.
#[derive(Clone, Copy)]
pub(crate) struct Payload {
    pub(crate) id: usize,
    pub(crate) bytes: [u8; 24],
}

impl Payload {
    /// Every byte of a well-formed payload is the low byte of its identifier.
    pub(crate) open spec fn wf(self) -> bool {
        forall|i: int| 0 <= i < 24 ==> #[trigger] self.bytes@[i] as int == self.id % 256
    }

    /// The payload of the node with identifier `id`.
    pub(crate) fn new(id: usize) -> (payload: Self)
        ensures
            payload.id == id,
            payload.wf(),
    {
        let low: u8 = (id & 0xff) as u8;
        proof {
            assert(low as int == id % 256) by (bit_vector)
                requires
                    low == (id & 0xff) as u8,
            ;
        }
        Self { id, bytes: [low; 24] }
    }

    /// The identifier plus the low byte, as a wrapping sum.
    pub(crate) fn checksum(self) -> (sum: usize)
        requires
            self.wf(),
        ensures
            sum as int == wrap(payload_weight(self.id as int)),
    {
        let low = self.bytes[0];
        assert(self.bytes@[0] as int == self.id % 256);
        proof {
            lemma_wrapping_add_is_wrapped_sum(self.id, low as usize);
        }
        self.id.wrapping_add(low as usize)
    }
}

} // verus!
