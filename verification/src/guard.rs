//! The double-sign guard: the per-chain high-water-mark store that decides
//! whether signing a given slot is currently permitted, and the textual
//! record format under which a mark is persisted.

use vstd::prelude::*;
use vstd::pervasive::VecAdditionalExecFns;

use crate::codec::bytes_eq;
use crate::codec::dec_i64;
use crate::codec::dec_u64;
use crate::codec::lemma_dec_digits;
use crate::codec::lemma_num_value_dec;
use crate::codec::lemma_num_value_prefix;
use crate::codec::num_value;
use crate::codec::put_dec_i64;
use crate::codec::put_dec_u64;
use crate::proposal::Proposal;

verus! {

/// The last approved signing slot of one chain: the coordinate under which
/// equivocation is judged.
#[derive(Clone, Copy, PartialEq, Eq, Structural, Debug)]
pub struct HighWaterMark {
    /// The block height.
    pub height: i64,
    /// The consensus round.
    pub round: i64,
    /// The proof-of-lock round (`-1` for none).
    pub pol_round: i64,
    /// The message kind ordinal, the final tie-breaker.
    pub msg_type: u32,
}

/// The guard's answer for one candidate slot.
#[derive(Clone, Copy, PartialEq, Eq, Structural, Debug)]
pub enum Decision {
    /// Signing this slot is permitted now.
    Approve,
    /// Signing this slot would repeat or rewind an approved slot.
    Reject,
}

/// The signing slot of a proposal.
pub open spec fn slot_of(p: Proposal) -> HighWaterMark {
    HighWaterMark { height: p.height, round: p.round, pol_round: p.pol_round, msg_type: p.msg_type }
}

/// Strict lexicographic order on slots: by height, then round, then
/// proof-of-lock round, then message kind.
pub open spec fn hwm_gt(a: HighWaterMark, b: HighWaterMark) -> bool {
    a.height > b.height || (a.height == b.height && a.round > b.round) || (a.height == b.height
        && a.round == b.round && a.pol_round > b.pol_round) || (a.height == b.height && a.round
        == b.round && a.pol_round == b.pol_round && a.msg_type > b.msg_type)
}

/// Whether a candidate slot may be signed given the stored mark: always when
/// no mark exists yet, else only strictly above it.
pub open spec fn permitted(prev: Option<HighWaterMark>, candidate: HighWaterMark) -> bool {
    match prev {
        None => true,
        Some(h) => hwm_gt(candidate, h),
    }
}

/// The signing slot of a proposal.
pub fn proposal_slot(p: &Proposal) -> (s: HighWaterMark)
    ensures
        s == slot_of(*p),
{
    HighWaterMark { height: p.height, round: p.round, pol_round: p.pol_round, msg_type: p.msg_type }
}

/// Whether `a` is strictly above `b` in the slot order.
pub fn slot_gt(a: &HighWaterMark, b: &HighWaterMark) -> (r: bool)
    ensures
        r == hwm_gt(*a, *b),
{
    a.height > b.height || (a.height == b.height && a.round > b.round) || (a.height == b.height
        && a.round == b.round && a.pol_round > b.pol_round) || (a.height == b.height && a.round
        == b.round && a.pol_round == b.pol_round && a.msg_type > b.msg_type)
}

/// One chain's entry in the guard.
pub struct ChainState {
    /// The chain this mark belongs to.
    pub chain_id: Vec<u8>,
    /// The last approved-and-committed slot.
    pub hwm: HighWaterMark,
}

/// The mark stored for `chain` in a list of entries: the first entry with
/// that chain identifier.
pub open spec fn lookup_seq(s: Seq<ChainState>, chain: Seq<u8>) -> Option<HighWaterMark>
    decreases s.len(),
{
    if s.len() == 0 {
        None
    } else if s[0].chain_id@ == chain {
        Some(s[0].hwm)
    } else {
        lookup_seq(s.skip(1), chain)
    }
}

/// Replacing one entry changes no other key's lookup result.
proof fn lemma_lookup_update_other(s: Seq<ChainState>, i: int, e: ChainState, k: Seq<u8>)
    requires
        0 <= i < s.len(),
        e.chain_id@ != k,
        s[i].chain_id@ != k,
    ensures
        lookup_seq(s.update(i, e), k) == lookup_seq(s, k),
    decreases i,
{
    if i == 0 {
        assert(s.update(0, e)[0] == e);
        assert(s.update(0, e).skip(1) =~= s.skip(1));
    } else {
        lemma_lookup_update_other(s.skip(1), i - 1, e, k);
        assert(s.update(i, e).skip(1) =~= s.skip(1).update(i - 1, e));
        assert(s.update(i, e)[0] == s[0]);
    }
}

/// Replacing the first entry for `chain` installs its mark.
proof fn lemma_lookup_update(s: Seq<ChainState>, i: int, e: ChainState, chain: Seq<u8>)
    requires
        0 <= i < s.len(),
        s[i].chain_id@ == chain,
        e.chain_id@ == chain,
        forall|j: int| 0 <= j < i ==> s[j].chain_id@ != chain,
    ensures
        lookup_seq(s.update(i, e), chain) == Some(e.hwm),
        forall|k: Seq<u8>|
            k != chain ==> lookup_seq(s.update(i, e), k) == lookup_seq(s, k),
    decreases i,
{
    if i == 0 {
        assert(s.update(0, e)[0] == e);
    } else {
        lemma_lookup_update(s.skip(1), i - 1, e, chain);
        assert(s.update(i, e).skip(1) =~= s.skip(1).update(i - 1, e));
        assert(s.update(i, e)[0] == s[0]);
    }
    assert forall|k: Seq<u8>| k != chain implies lookup_seq(s.update(i, e), k) == lookup_seq(
        s,
        k,
    ) by {
        lemma_lookup_update_other(s, i, e, k);
    }
}

/// Appending an entry changes no other key's lookup result.
proof fn lemma_lookup_push_other(s: Seq<ChainState>, e: ChainState, k: Seq<u8>)
    requires
        e.chain_id@ != k,
    ensures
        lookup_seq(s.push(e), k) == lookup_seq(s, k),
    decreases s.len(),
{
    if s.len() == 0 {
        assert(s.push(e)[0] == e);
        assert(s.push(e).skip(1) =~= Seq::<ChainState>::empty());
        assert(lookup_seq(s.push(e), k) == lookup_seq(Seq::<ChainState>::empty(), k));
    } else {
        lemma_lookup_push_other(s.skip(1), e, k);
        assert(s.push(e).skip(1) =~= s.skip(1).push(e));
        assert(s.push(e)[0] == s[0]);
    }
}

/// Appending an entry for a chain without one gives that chain its mark and
/// leaves every other chain's mark alone.
proof fn lemma_lookup_push(s: Seq<ChainState>, e: ChainState, chain: Seq<u8>)
    requires
        lookup_seq(s, chain) is None,
        e.chain_id@ == chain,
    ensures
        lookup_seq(s.push(e), chain) == Some(e.hwm),
        forall|k: Seq<u8>|
            k != chain ==> lookup_seq(s.push(e), k) == lookup_seq(s, k),
    decreases s.len(),
{
    if s.len() == 0 {
        assert(s.push(e)[0] == e);
    } else {
        lemma_lookup_push(s.skip(1), e, chain);
        assert(s.push(e).skip(1) =~= s.skip(1).push(e));
        assert(s.push(e)[0] == s[0]);
    }
    assert forall|k: Seq<u8>| k != chain implies lookup_seq(s.push(e), k) == lookup_seq(
        s,
        k,
    ) by {
        lemma_lookup_push_other(s, e, k);
    }
}

/// The per-chain high-water-mark store. One instance is the single source of
/// truth for "may this slot be signed now"; its durable image is written by
/// the caller after each successful commit.
pub struct DoubleSignGuard {
    entries: Vec<ChainState>,
}

impl DoubleSignGuard {
    /// The mark currently held for `chain`, if any.
    pub closed spec fn hwm_of(self, chain: Seq<u8>) -> Option<HighWaterMark> {
        lookup_seq(self.entries@, chain)
    }

    /// An empty guard: no chain has a mark yet.
    pub fn new() -> (g: DoubleSignGuard)
        ensures
            forall|k: Seq<u8>| g.hwm_of(k) is None,
    {
        let g = DoubleSignGuard { entries: Vec::new() };
        proof {
            assert(g.entries@.len() == 0);
        }
        g
    }

    /// The index of the first entry for `chain`, if any.
    fn find(&self, chain_id: &Vec<u8>) -> (r: Option<usize>)
        ensures
            match r {
                Some(i) => i < self.entries@.len() && self.entries@[i as int].chain_id@ == chain_id@
                    && self.hwm_of(chain_id@) == Some(self.entries@[i as int].hwm) && forall|j: int|
                    0 <= j < i ==> self.entries@[j].chain_id@ != chain_id@,
                None => self.hwm_of(chain_id@) is None,
            },
    {
        let mut i: usize = 0;
        proof {
            assert(self.entries@.skip(0) =~= self.entries@);
        }
        while i < self.entries.len()
            invariant
                i <= self.entries@.len(),
                lookup_seq(self.entries@, chain_id@) == lookup_seq(
                    self.entries@.skip(i as int),
                    chain_id@,
                ),
                forall|j: int| 0 <= j < i ==> self.entries@[j].chain_id@ != chain_id@,
            decreases self.entries@.len() - i,
        {
            if bytes_eq(&self.entries[i].chain_id, chain_id) {
                assert(self.entries@.skip(i as int)[0] == self.entries@[i as int]);
                return Some(i);
            }
            assert(self.entries@.skip(i as int)[0] == self.entries@[i as int]);
            assert(self.entries@.skip(i as int).skip(1) =~= self.entries@.skip(i + 1));
            i = i + 1;
        }
        None
    }

    /// Decides whether `candidate` may be signed for `chain_id` now:
    /// approved exactly when no mark exists yet or the candidate lies
    /// strictly above the stored mark. Deciding never changes the guard, so
    /// a rejected slot stays rejected however often it is retried.
    pub fn check_and_reserve(&self, chain_id: &Vec<u8>, candidate: &HighWaterMark) -> (d: Decision)
        ensures
            d == Decision::Approve <==> permitted(self.hwm_of(chain_id@), *candidate),
            d == Decision::Approve || d == Decision::Reject,
    {
        match self.find(chain_id) {
            None => Decision::Approve,
            Some(i) => {
                if slot_gt(candidate, &self.entries[i].hwm) {
                    Decision::Approve
                } else {
                    Decision::Reject
                }
            },
        }
    }

    /// Records `candidate` as the new mark of `chain_id`, leaving every
    /// other chain's mark unchanged. Called only after a signature over the
    /// approved slot has actually been produced; a persisted mark never
    /// decreases, so the candidate must be permitted against the stored one.
    pub fn commit(&mut self, chain_id: &Vec<u8>, candidate: &HighWaterMark)
        requires
            permitted(old(self).hwm_of(chain_id@), *candidate),
        ensures
            final(self).hwm_of(chain_id@) == Some(*candidate),
            forall|k: Seq<u8>| k != chain_id@ ==> final(self).hwm_of(k) == old(self).hwm_of(k),
    {
        let entry = ChainState { chain_id: chain_id.clone(), hwm: *candidate };
        match self.find(chain_id) {
            Some(i) => {
                proof {
                    lemma_lookup_update(self.entries@, i as int, entry, chain_id@);
                }
                self.entries.set(i, entry);
            },
            None => {
                proof {
                    lemma_lookup_push(self.entries@, entry, chain_id@);
                }
                self.entries.push(entry);
            },
        }
    }
}

/// Why a durable record could not be used.
#[derive(Clone, Copy, PartialEq, Eq, Structural, Debug)]
pub enum PersistenceError {
    /// The stored record is not the canonical text of any mark.
    MalformedRecord,
    /// The durable write of a new mark did not complete.
    CommitFailed,
}

/// The canonical durable record of a mark: four decimal integers separated
/// by forward slashes, `height/round/pol_round/msg_type`.
pub open spec fn hwm_line(h: HighWaterMark) -> Seq<u8> {
    dec_i64(h.height as int) + seq![47u8] + dec_i64(h.round as int) + seq![47u8] + dec_i64(
        h.pol_round as int,
    ) + seq![47u8] + dec_u64(h.msg_type as nat)
}

/// The canonical durable record of a mark.
pub fn serialize_hwm(h: &HighWaterMark) -> (r: Vec<u8>)
    ensures
        r@ == hwm_line(*h),
{
    let mut out: Vec<u8> = Vec::new();
    put_dec_i64(&mut out, h.height);
    out.push(47);
    put_dec_i64(&mut out, h.round);
    out.push(47);
    put_dec_i64(&mut out, h.pol_round);
    out.push(47);
    put_dec_u64(&mut out, h.msg_type as u64);
    assert(out@ =~= hwm_line(*h));
    out
}

/// The first slash at or after `from`, if any.
fn find_slash(line: &Vec<u8>, from: usize) -> (r: Option<usize>)
    requires
        from <= line@.len(),
    ensures
        r matches Some(i) ==> from <= i < line@.len() && line@[i as int] == 47 && (forall|j: int|
            from <= j < i ==> line@[j] != 47),
        r is None ==> forall|j: int| from <= j < line@.len() ==> line@[j] != 47,
{
    let mut i: usize = from;
    while i < line.len()
        invariant
            from <= i <= line@.len(),
            forall|j: int| from <= j < i ==> line@[j] != 47,
        decreases line@.len() - i,
    {
        if line[i] == 47 {
            return Some(i);
        }
        i = i + 1;
    }
    None
}

/// Reads an unsigned decimal number from `line[from..to]`. Success is owed:
/// the digit string of any value reads back as that value.
fn parse_dec_u64(line: &Vec<u8>, from: usize, to: usize) -> (r: Option<u64>)
    requires
        from <= to,
        to <= line@.len(),
    ensures
        forall|v: u64|
            line@.subrange(from as int, to as int) == dec_u64(v as nat) ==> r == Some(v),
{
    if from >= to {
        proof {
            assert forall|v: u64|
                line@.subrange(from as int, to as int) == dec_u64(v as nat) implies false by {
                lemma_dec_digits(v as nat);
            }
        }
        return None;
    }
    let mut acc: u64 = 0;
    let mut i: usize = from;
    while i < to
        invariant
            from <= i <= to,
            to <= line@.len(),
            forall|j: int| from <= j < i ==> 48 <= #[trigger] line@[j] <= 57,
            acc as int == num_value(line@.subrange(from as int, i as int)),
        decreases to - i,
    {
        let b = line[i];
        if b < 48 || b > 57 {
            proof {
                assert forall|v: u64|
                    line@.subrange(from as int, to as int) == dec_u64(v as nat) implies false by {
                    lemma_dec_digits(v as nat);
                    assert(line@.subrange(from as int, to as int)[i - from] == line@[i as int]);
                }
            }
            return None;
        }
        let d = (b - 48) as u64;
        if acc > (0xFFFF_FFFF_FFFF_FFFFu64 - d) / 10 {
            proof {
                assert forall|v: u64|
                    line@.subrange(from as int, to as int) == dec_u64(v as nat) implies false by {
                    lemma_dec_digits(v as nat);
                    lemma_num_value_dec(v as nat);
                    lemma_num_value_prefix(dec_u64(v as nat), i - from + 1);
                    assert(dec_u64(v as nat).take(i - from + 1).drop_last() =~= line@.subrange(
                        from as int,
                        i as int,
                    ));
                    assert(dec_u64(v as nat).take(i - from + 1).last() == line@[i as int]);
                    assert(num_value(dec_u64(v as nat).take(i - from + 1)) == acc as int * 10
                        + d);
                    assert(acc as int * 10 + d <= v as int);
                    assert(acc as int <= (0xFFFF_FFFF_FFFF_FFFF - d as int) / 10) by (nonlinear_arith)
                        requires
                            acc as int * 10 + d as int <= 0xFFFF_FFFF_FFFF_FFFF,
                            0 <= d as int,
                    ;
                }
            }
            return None;
        }
        acc = acc * 10 + d;
        proof {
            assert(line@.subrange(from as int, i + 1).drop_last() =~= line@.subrange(
                from as int,
                i as int,
            ));
            assert(line@.subrange(from as int, i + 1).last() == line@[i as int]);
        }
        i = i + 1;
    }
    proof {
        assert forall|v: u64|
            line@.subrange(from as int, to as int) == dec_u64(v as nat) implies acc == v by {
            lemma_num_value_dec(v as nat);
        }
    }
    Some(acc)
}

/// Reads a signed decimal number from `line[from..to]`. Success is owed as
/// for the unsigned reader.
fn parse_dec_i64(line: &Vec<u8>, from: usize, to: usize) -> (r: Option<i64>)
    requires
        from <= to,
        to <= line@.len(),
    ensures
        forall|v: i64|
            line@.subrange(from as int, to as int) == dec_i64(v as int) ==> r == Some(v),
{
    if from >= to {
        proof {
            assert forall|v: i64|
                line@.subrange(from as int, to as int) == dec_i64(v as int) implies false by {
                if v >= 0 {
                    lemma_dec_digits(v as nat);
                } else {
                    lemma_dec_digits((-v) as nat);
                }
            }
        }
        return None;
    }
    if line[from] == 45 {
        proof {
            assert(line@.subrange(from as int, to as int).len() == to - from);
            assert forall|v: i64|
                line@.subrange(from as int, to as int) == dec_i64(v as int) implies v < 0
                && line@.subrange(from + 1, to as int) == dec_u64((-v) as nat) by {
                assert(line@.subrange(from as int, to as int)[0] == line@[from as int]);
                if v >= 0 {
                    lemma_dec_digits(v as nat);
                    assert(dec_i64(v as int)[0] == dec_u64(v as nat)[0]);
                }
                assert(line@.subrange(from + 1, to as int) =~= line@.subrange(
                    from as int,
                    to as int,
                ).skip(1));
                assert((seq![45u8] + dec_u64((-v) as nat)).skip(1) =~= dec_u64((-v) as nat));
            }
        }
        let magnitude = match parse_dec_u64(line, from + 1, to) {
            Some(m) => m,
            None => {
                proof {
                    assert forall|v: i64|
                        line@.subrange(from as int, to as int) == dec_i64(v as int)
                        implies false by {
                        assert(((-v) as u64) as nat == (-v) as nat);
                    }
                }
                return None;
            },
        };
        proof {
            assert forall|v: i64|
                line@.subrange(from as int, to as int) == dec_i64(v as int) implies magnitude
                as nat == (-v) as nat by {
                assert(((-v) as u64) as nat == (-v) as nat);
            }
        }
        if magnitude > 0x8000_0000_0000_0000u64 {
            return None;
        }
        if magnitude == 0x8000_0000_0000_0000u64 {
            return Some(i64::MIN);
        }
        Some(-(magnitude as i64))
    } else {
        proof {
            assert forall|v: i64|
                line@.subrange(from as int, to as int) == dec_i64(v as int) implies v >= 0
                && line@.subrange(from as int, to as int) == dec_u64(v as nat) by {
                assert(line@.subrange(from as int, to as int)[0] == line@[from as int]);
                if v < 0 {
                    assert(dec_i64(v as int)[0] == 45);
                }
            }
        }
        let magnitude = match parse_dec_u64(line, from, to) {
            Some(m) => m,
            None => {
                proof {
                    assert forall|v: i64|
                        line@.subrange(from as int, to as int) == dec_i64(v as int)
                        implies false by {
                        assert((v as u64) as nat == v as nat);
                    }
                }
                return None;
            },
        };
        proof {
            assert forall|v: i64|
                line@.subrange(from as int, to as int) == dec_i64(v as int) implies magnitude
                as nat == v as nat by {
                assert((v as u64) as nat == v as nat);
            }
        }
        if magnitude > 0x7FFF_FFFF_FFFF_FFFFu64 {
            return None;
        }
        Some(magnitude as i64)
    }
}

/// No byte of a signed decimal number is a slash.
proof fn lemma_dec_i64_no_slash(v: int)
    ensures
        dec_i64(v).len() >= 1,
        forall|i: int| 0 <= i < dec_i64(v).len() ==> #[trigger] dec_i64(v)[i] != 47,
{
    if v >= 0 {
        lemma_dec_digits(v as nat);
    } else {
        lemma_dec_digits((-v) as nat);
        assert forall|i: int| 0 <= i < dec_i64(v).len() implies #[trigger] dec_i64(v)[i]
            != 47 by {
            if i == 0 {
                assert(dec_i64(v)[0] == 45);
            } else {
                assert(dec_i64(v)[i] == dec_u64((-v) as nat)[i - 1]);
            }
        }
    }
}

/// Where the first field of a record ends.
spec fn hwm_p1(h: HighWaterMark) -> int {
    dec_i64(h.height as int).len() as int
}

/// Where the second field of a record ends.
spec fn hwm_p2(h: HighWaterMark) -> int {
    hwm_p1(h) + 1 + dec_i64(h.round as int).len()
}

/// Where the third field of a record ends.
spec fn hwm_p3(h: HighWaterMark) -> int {
    hwm_p2(h) + 1 + dec_i64(h.pol_round as int).len()
}

/// The canonical record dissected: its three slashes stand exactly at the
/// field boundaries, each field is the decimal text of its number, and no
/// slash occurs inside a field.
#[verifier::rlimit(100)]
proof fn lemma_hwm_shape(h: HighWaterMark)
    ensures
        hwm_line(h).len() == hwm_p3(h) + 1 + dec_u64(h.msg_type as nat).len(),
        hwm_line(h)[hwm_p1(h)] == 47,
        hwm_line(h)[hwm_p2(h)] == 47,
        hwm_line(h)[hwm_p3(h)] == 47,
        hwm_line(h).subrange(0, hwm_p1(h)) == dec_i64(h.height as int),
        hwm_line(h).subrange(hwm_p1(h) + 1, hwm_p2(h)) == dec_i64(h.round as int),
        hwm_line(h).subrange(hwm_p2(h) + 1, hwm_p3(h)) == dec_i64(h.pol_round as int),
        hwm_line(h).subrange(hwm_p3(h) + 1, hwm_line(h).len() as int) == dec_u64(
            h.msg_type as nat,
        ),
        forall|j: int| 0 <= j < hwm_p1(h) ==> #[trigger] hwm_line(h)[j] != 47,
        forall|j: int| hwm_p1(h) < j < hwm_p2(h) ==> #[trigger] hwm_line(h)[j] != 47,
        forall|j: int| hwm_p2(h) < j < hwm_p3(h) ==> #[trigger] hwm_line(h)[j] != 47,
        forall|j: int|
            hwm_p3(h) < j < hwm_line(h).len() ==> #[trigger] hwm_line(h)[j] != 47,
{
    lemma_dec_i64_no_slash(h.height as int);
    lemma_dec_i64_no_slash(h.round as int);
    lemma_dec_i64_no_slash(h.pol_round as int);
    lemma_dec_digits(h.msg_type as nat);
    assert(hwm_line(h).subrange(0, hwm_p1(h)) =~= dec_i64(h.height as int));
    assert(hwm_line(h).subrange(hwm_p1(h) + 1, hwm_p2(h)) =~= dec_i64(h.round as int));
    assert(hwm_line(h).subrange(hwm_p2(h) + 1, hwm_p3(h)) =~= dec_i64(h.pol_round as int));
    assert(hwm_line(h).subrange(hwm_p3(h) + 1, hwm_line(h).len() as int) =~= dec_u64(
        h.msg_type as nat,
    ));
    assert forall|j: int| 0 <= j < hwm_p1(h) implies #[trigger] hwm_line(h)[j] != 47 by {
        assert(hwm_line(h).subrange(0, hwm_p1(h))[j] == hwm_line(h)[j]);
    }
    assert forall|j: int| hwm_p1(h) < j < hwm_p2(h) implies #[trigger] hwm_line(h)[j] != 47 by {
        assert(hwm_line(h).subrange(hwm_p1(h) + 1, hwm_p2(h))[j - (hwm_p1(h) + 1)] == hwm_line(
            h,
        )[j]);
    }
    assert forall|j: int| hwm_p2(h) < j < hwm_p3(h) implies #[trigger] hwm_line(h)[j] != 47 by {
        assert(hwm_line(h).subrange(hwm_p2(h) + 1, hwm_p3(h))[j - (hwm_p2(h) + 1)] == hwm_line(
            h,
        )[j]);
    }
    assert forall|j: int| hwm_p3(h) < j < hwm_line(h).len() implies #[trigger] hwm_line(h)[j]
        != 47 by {
        assert(hwm_line(h).subrange(hwm_p3(h) + 1, hwm_line(h).len() as int)[j - (hwm_p3(h)
            + 1)] == hwm_line(h)[j]);
    }
}

/// Parses a durable record. Parsing is defensive and strict: a mark is
/// returned only when `line` is, byte for byte, the canonical record of that
/// mark, so any accepted record re-serializes to itself. Success is owed:
/// the canonical record of any mark parses back to it, so every committed
/// record is reloadable.
#[verifier::rlimit(100)]
pub fn parse_hwm(line: &Vec<u8>) -> (r: Result<HighWaterMark, PersistenceError>)
    ensures
        r matches Ok(h) ==> line@ == hwm_line(h),
        forall|h: HighWaterMark| line@ == hwm_line(h) ==> r == Ok::<HighWaterMark, PersistenceError>(h),
{
    let n = line.len();
    let s1 = match find_slash(line, 0) {
        Some(i) => i,
        None => {
            proof {
                assert forall|h: HighWaterMark| line@ == hwm_line(h) implies false by {
                    lemma_hwm_shape(h);
                }
            }
            return Err(PersistenceError::MalformedRecord);
        },
    };
    proof {
        assert forall|h: HighWaterMark| line@ == hwm_line(h) implies s1 == hwm_p1(h) by {
            lemma_hwm_shape(h);
        }
    }
    let s2 = match find_slash(line, s1 + 1) {
        Some(i) => i,
        None => {
            proof {
                assert forall|h: HighWaterMark| line@ == hwm_line(h) implies false by {
                    lemma_hwm_shape(h);
                }
            }
            return Err(PersistenceError::MalformedRecord);
        },
    };
    proof {
        assert forall|h: HighWaterMark| line@ == hwm_line(h) implies s2 == hwm_p2(h) by {
            lemma_hwm_shape(h);
        }
    }
    let s3 = match find_slash(line, s2 + 1) {
        Some(i) => i,
        None => {
            proof {
                assert forall|h: HighWaterMark| line@ == hwm_line(h) implies false by {
                    lemma_hwm_shape(h);
                }
            }
            return Err(PersistenceError::MalformedRecord);
        },
    };
    proof {
        assert forall|h: HighWaterMark| line@ == hwm_line(h) implies s3 == hwm_p3(h) by {
            lemma_hwm_shape(h);
        }
    }
    let height = match parse_dec_i64(line, 0, s1) {
        Some(v) => v,
        None => {
            proof {
                assert forall|h: HighWaterMark| line@ == hwm_line(h) implies false by {
                    lemma_hwm_shape(h);
                }
            }
            return Err(PersistenceError::MalformedRecord);
        },
    };
    let round = match parse_dec_i64(line, s1 + 1, s2) {
        Some(v) => v,
        None => {
            proof {
                assert forall|h: HighWaterMark| line@ == hwm_line(h) implies false by {
                    lemma_hwm_shape(h);
                }
            }
            return Err(PersistenceError::MalformedRecord);
        },
    };
    let pol_round = match parse_dec_i64(line, s2 + 1, s3) {
        Some(v) => v,
        None => {
            proof {
                assert forall|h: HighWaterMark| line@ == hwm_line(h) implies false by {
                    lemma_hwm_shape(h);
                }
            }
            return Err(PersistenceError::MalformedRecord);
        },
    };
    let msg_type64 = match parse_dec_u64(line, s3 + 1, n) {
        Some(v) => v,
        None => {
            proof {
                assert forall|h: HighWaterMark| line@ == hwm_line(h) implies false by {
                    lemma_hwm_shape(h);
                    assert((h.msg_type as u64) as nat == h.msg_type as nat);
                }
            }
            return Err(PersistenceError::MalformedRecord);
        },
    };
    proof {
        assert forall|h: HighWaterMark| line@ == hwm_line(h) implies height == h.height && round
            == h.round && pol_round == h.pol_round && msg_type64 == h.msg_type as u64 by {
            lemma_hwm_shape(h);
            assert((h.msg_type as u64) as nat == h.msg_type as nat);
        }
    }
    if msg_type64 > 0xFFFF_FFFFu64 {
        proof {
            assert forall|h: HighWaterMark| line@ == hwm_line(h) implies false by {
            }
        }
        return Err(PersistenceError::MalformedRecord);
    }
    let h = HighWaterMark { height, round, pol_round, msg_type: msg_type64 as u32 };
    let reencoded = serialize_hwm(&h);
    proof {
        assert forall|h0: HighWaterMark| line@ == hwm_line(h0) implies reencoded@ == line@ && h
            == h0 by {
        }
    }
    if bytes_eq(&reencoded, line) {
        Ok(h)
    } else {
        Err(PersistenceError::MalformedRecord)
    }
}

/// The slot order is irreflexive: a slot never lies above itself, so a slot
/// equal to the stored mark is never approved.
pub proof fn lemma_slot_order_irreflexive(a: HighWaterMark)
    ensures
        !hwm_gt(a, a),
{
}

/// The slot order is transitive.
pub proof fn lemma_slot_order_transitive(a: HighWaterMark, b: HighWaterMark, c: HighWaterMark)
    requires
        hwm_gt(b, a),
        hwm_gt(c, b),
    ensures
        hwm_gt(c, a),
{
}

/// Monotonicity of approvals on one chain: in any run of signing slots in
/// which each slot was approved while the one before it was the committed
/// mark, every later slot lies strictly above every earlier one.
pub proof fn lemma_approved_sequence_increasing(s: Seq<HighWaterMark>)
    requires
        forall|i: int| 0 <= i < s.len() - 1 ==> permitted(Some(#[trigger] s[i]), s[i + 1]),
    ensures
        forall|i: int, j: int| 0 <= i < j < s.len() ==> hwm_gt(s[j], s[i]),
{
    assert forall|i: int, j: int| 0 <= i < j < s.len() implies hwm_gt(s[j], s[i]) by {
        lemma_chain_increasing(s, i, j);
    }
}

/// Every later slot of an approved run lies above a given earlier one.
proof fn lemma_chain_increasing(s: Seq<HighWaterMark>, i: int, j: int)
    requires
        forall|k: int| 0 <= k < s.len() - 1 ==> hwm_gt(s[k + 1], #[trigger] s[k]),
        0 <= i < j < s.len(),
    ensures
        hwm_gt(s[j], s[i]),
    decreases j - i,
{
    if j == i + 1 {
        assert(hwm_gt(s[i + 1], s[i]));
    } else {
        lemma_chain_increasing(s, i, j - 1);
        assert(hwm_gt(s[(j - 1) + 1], s[j - 1]));
        lemma_slot_order_transitive(s[i], s[j - 1], s[j]);
    }
}

/// No double sign: of two canonical messages with the same slot tuple, at
/// most one is ever approved — once the first is committed as the mark, the
/// second is refused.
pub proof fn lemma_no_double_sign(committed: HighWaterMark, candidate: HighWaterMark)
    requires
        candidate.height == committed.height,
        candidate.round == committed.round,
        candidate.pol_round == committed.pol_round,
        candidate.msg_type == committed.msg_type,
    ensures
        !permitted(Some(committed), candidate),
{
}

/// Idempotent rejection: a candidate at or below the stored mark is refused,
/// and since deciding mutates nothing, every retry against the same mark is
/// refused as well.
pub proof fn lemma_reject_stable(prev: HighWaterMark, candidate: HighWaterMark)
    requires
        !hwm_gt(candidate, prev),
    ensures
        !permitted(Some(prev), candidate),
{
}

} // verus!
