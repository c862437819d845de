//! Retention policy, and redaction as a sink derived from canonical bytes.

use vstd::prelude::*;

verus! {

/// How long captured content may live, from most to least restrictive.
#[derive(Clone, Copy, Debug, PartialEq, Eq, Structural, PartialOrd, Ord)]
pub enum RetentionTier {
    Disabled,
    MemoryOnly,
    BoundedDurable,
}

/// The place of a tier in the order from most to least restrictive.
pub open spec fn tier_rank(t: RetentionTier) -> nat {
    match t {
        RetentionTier::Disabled => 0,
        RetentionTier::MemoryOnly => 1,
        RetentionTier::BoundedDurable => 2,
    }
}

fn rank(t: RetentionTier) -> (r: u8)
    ensures
        r == tier_rank(t),
{
    match t {
        RetentionTier::Disabled => 0,
        RetentionTier::MemoryOnly => 1,
        RetentionTier::BoundedDurable => 2,
    }
}

#[derive(Clone, Copy, Debug, PartialEq, Eq, Structural)]
pub struct RetentionClass {
    pub tier: RetentionTier,
}

/// A parent rule and the closer, local one.
#[derive(Clone, Debug, PartialEq, Eq, Structural)]
pub struct RetentionPolicy {
    parent: RetentionTier,
    local: RetentionTier,
}

/// The more restrictive of two tiers.
pub open spec fn stricter(a: RetentionTier, b: RetentionTier) -> RetentionTier {
    if tier_rank(a) <= tier_rank(b) {
        a
    } else {
        b
    }
}

impl RetentionPolicy {
    pub closed spec fn parent_tier(&self) -> RetentionTier {
        self.parent
    }

    pub closed spec fn local_tier(&self) -> RetentionTier {
        self.local
    }

    pub fn new(parent: RetentionTier, local: RetentionTier) -> (p: Self)
        ensures
            p.parent_tier() == parent,
            p.local_tier() == local,
    {
        RetentionPolicy { parent, local }
    }

    /// The most restrictive applicable rule wins: a closer setting cannot
    /// widen a parent's prohibition.
    pub fn resolved(&self) -> (t: RetentionTier)
        ensures
            t == stricter(self.parent_tier(), self.local_tier()),
    {
        if rank(self.parent) <= rank(self.local) {
            self.parent
        } else {
            self.local
        }
    }

    pub fn allows_durable_capture(&self) -> (b: bool)
        ensures
            b == (stricter(self.parent_tier(), self.local_tier()) == RetentionTier::BoundedDurable),
    {
        let t = self.resolved();
        match t {
            RetentionTier::BoundedDurable => true,
            _ => false,
        }
    }
}

/// The resolved tier is no wider than either rule, and durable capture is
/// allowed only where both rules allow it.
pub proof fn lemma_restrictive_wins(parent: RetentionTier, local: RetentionTier)
    ensures
        tier_rank(stricter(parent, local)) <= tier_rank(parent),
        tier_rank(stricter(parent, local)) <= tier_rank(local),
        stricter(parent, local) == RetentionTier::BoundedDurable <==> (parent == RetentionTier::BoundedDurable
            && local == RetentionTier::BoundedDurable),
{
}

/// `n` occurs in `h` at `p`.
pub open spec fn occurs_at(h: Seq<u8>, n: Seq<u8>, p: int) -> bool {
    0 <= p && p + n.len() <= h.len() && h.subrange(p, p + n.len()) == n
}

/// The first place from `p` on where `n` occurs in `h`.
pub open spec fn occurrence_from(h: Seq<u8>, n: Seq<u8>, p: int) -> Option<int>
    decreases h.len() - p,
{
    if p < 0 || p >= h.len() || p + n.len() > h.len() {
        None
    } else if occurs_at(h, n, p) {
        Some(p)
    } else {
        occurrence_from(h, n, p + 1)
    }
}

/// The first place a non-empty `n` occurs in `h`.
pub open spec fn first_occurrence(h: Seq<u8>, n: Seq<u8>) -> Option<int> {
    if n.len() == 0 || n.len() > h.len() {
        None
    } else {
        occurrence_from(h, n, 0)
    }
}

proof fn lemma_occurrence_range(h: Seq<u8>, n: Seq<u8>, p: int)
    requires
        0 <= p,
    ensures
        occurrence_from(h, n, p) matches Some(q) ==> occurs_at(h, n, q),
    decreases h.len() - p,
{
    if p < h.len() && p + n.len() <= h.len() && !occurs_at(h, n, p) {
        lemma_occurrence_range(h, n, p + 1);
    }
}

/// The export of `canonical`: its first occurrence of `secret` masked with
/// `*`, every other byte kept.
pub open spec fn redacted(canonical: Seq<u8>, secret: Seq<u8>) -> Seq<u8> {
    match first_occurrence(canonical, secret) {
        None => canonical,
        Some(p) => Seq::new(
            canonical.len(),
            |i: int|
                if p <= i < p + secret.len() {
                    42u8
                } else {
                    canonical[i]
                },
        ),
    }
}

/// The running state of the canonical digest after the first `n` bytes.
pub open spec fn digest_state(b: Seq<u8>, n: nat) -> (u64, Seq<u8>)
    decreases n,
{
    if n == 0 {
        (0x9e3779b97f4a7c15u64, Seq::new(32, |_i: int| 0u8))
    } else {
        let (h0, out0) = digest_state(b, (n - 1) as nat);
        let i = n - 1;
        let h = h0.wrapping_mul(0x100000001b3u64) ^ (b[i] as u64) ^ (i as u64);
        let o1 = out0.update(i % 32, out0[i % 32] ^ b[i]);
        let o2 = o1.update((i + 7) % 32, o1[(i + 7) % 32] ^ (h as u8));
        (h, o2)
    }
}

/// The 32-byte digest of canonical bytes.
pub open spec fn digest(b: Seq<u8>) -> Seq<u8> {
    digest_state(b, b.len()).1
}

fn find_subslice(hay: &[u8], needle: &[u8]) -> (r: Option<usize>)
    ensures
        match first_occurrence(hay@, needle@) {
            None => r is None,
            Some(p) => r == Some(p as usize) && occurs_at(hay@, needle@, p),
        },
{
    let n = needle.len();
    if n == 0 || n > hay.len() {
        return None;
    }
    let hlen = hay.len();
    let mut p: usize = 0;
    while p <= hlen - n
        invariant
            hlen == hay@.len(),
            1 <= n <= hay@.len(),
            n == needle@.len(),
            p <= hay@.len() - n + 1,
            first_occurrence(hay@, needle@) == occurrence_from(hay@, needle@, p as int),
        decreases hay@.len() - p,
    {
        let mut j: usize = 0;
        let mut same = true;
        while j < n
            invariant
                hlen == hay@.len(),
                p + n <= hay@.len(),
                n == needle@.len(),
                j <= n,
                same == (forall|k: int| 0 <= k < j ==> hay@[p + k] == needle@[k]),
            decreases n - j,
        {
            if hay[p + j] != needle[j] {
                same = false;
            }
            j = j + 1;
        }
        if same {
            proof {
                assert(hay@.subrange(p as int, p + n) =~= needle@);
            }
            return Some(p);
        }
        proof {
            if occurs_at(hay@, needle@, p as int) {
                let k = choose|k: int| 0 <= k < n && hay@[p + k] != needle@[k];
                assert(hay@.subrange(p as int, p + n)[k] == hay@[p + k]);
            }
        }
        p = p + 1;
    }
    None
}

/// The canonical digest of `bytes`.
fn hash32(bytes: &[u8]) -> (r: [u8; 32])
    ensures
        r@ == digest(bytes@),
{
    let mut out: Vec<u8> = Vec::new();
    let mut k: usize = 0;
    while k < 32
        invariant
            k <= 32,
            out@ == Seq::new(k as nat, |_i: int| 0u8),
        decreases 32 - k,
    {
        out.push(0);
        k = k + 1;
        assert(out@ =~= Seq::new(k as nat, |_i: int| 0u8));
    }
    let mut h: u64 = 0x9e3779b97f4a7c15;
    let mut i: usize = 0;
    while i < bytes.len()
        invariant
            i <= bytes@.len(),
            (h, out@) == digest_state(bytes@, i as nat),
            out@.len() == 32,
        decreases bytes@.len() - i,
    {
        let b = bytes[i];
        h = h.wrapping_mul(0x100000001b3) ^ (b as u64) ^ (i as u64);
        let a = i % 32;
        let x = out[a] ^ b;
        out.set(a, x);
        let c = (a + 7) % 32;
        assert(c == (i + 7) % 32);
        let y = out[c] ^ (h as u8);
        out.set(c, y);
        i = i + 1;
    }
    let r = [
        out[0], out[1], out[2], out[3], out[4], out[5], out[6], out[7],
        out[8], out[9], out[10], out[11], out[12], out[13], out[14], out[15],
        out[16], out[17], out[18], out[19], out[20], out[21], out[22], out[23],
        out[24], out[25], out[26], out[27], out[28], out[29], out[30], out[31],
    ];
    assert(r@ =~= out@);
    r
}

/// Redaction is a derived sink: the export masks the first occurrence of
/// `replacement`, and the digest is taken over the canonical bytes, which
/// are never rewritten.
pub fn redact_export(canonical: &[u8], replacement: &[u8]) -> (r: (Vec<u8>, [u8; 32]))
    ensures
        r.0@ == redacted(canonical@, replacement@),
        r.1@ == digest(canonical@),
{
    let mut out: Vec<u8> = Vec::new();
    let mut i: usize = 0;
    while i < canonical.len()
        invariant
            i <= canonical@.len(),
            out@ == canonical@.subrange(0, i as int),
        decreases canonical@.len() - i,
    {
        out.push(canonical[i]);
        i = i + 1;
    }
    assert(out@ =~= canonical@);
    let clen = canonical.len();
    match find_subslice(out.as_slice(), replacement) {
        None => {},
        Some(pos) => {
            let n = replacement.len();
            let mut k: usize = pos;
            while k < pos + n
                invariant
                    clen == canonical@.len(),
                    pos + n <= canonical@.len(),
                    out@.len() == canonical@.len(),
                    pos <= k <= pos + n,
                    forall|j: int| 0 <= j < out@.len() ==> #[trigger] out@[j] == if pos <= j < k {
                        42u8
                    } else {
                        canonical@[j]
                    },
                decreases pos + n - k,
            {
                out.set(k, 42);
                k = k + 1;
            }
            assert(out@ =~= redacted(canonical@, replacement@));
        },
    }
    (out, hash32(canonical))
}


/// The export is derived: as long as the canonical bytes, equal to them
/// outside the first occurrence of the secret, masked inside it; and the
/// canonical bytes themselves are what the digest covers.
pub proof fn lemma_redaction_is_derived(canonical: Seq<u8>, secret: Seq<u8>)
    ensures
        redacted(canonical, secret).len() == canonical.len(),
        first_occurrence(canonical, secret) matches Some(p) ==> forall|i: int|
            0 <= i < canonical.len() ==> #[trigger] redacted(canonical, secret)[i] == if p <= i < p + secret.len() {
                42u8
            } else {
                canonical[i]
            },
        first_occurrence(canonical, secret) is None ==> redacted(canonical, secret) == canonical,
{
}

} // verus!
