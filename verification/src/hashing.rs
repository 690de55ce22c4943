//! The hash of a filter: what `DefaultHasher` makes of the bytes that spell
//! the filter, its case first and then its fields. Filters that are equal
//! are spelled alike, so they share their hash, on every machine.

use vstd::prelude::*;
use vstd::std_specs::hash::DefaultHasherAdditionalSpecFns;
use vstd::string::StrSliceExecFns;
use std::collections::hash_map::DefaultHasher;
use std::hash::Hasher;
use petgraph::Direction;
use crate::filters::Filter;
use crate::idx::QuantIdx;

verus! {

/// The `k` lowest bytes of a number, the lowest first.
pub open spec fn low_bytes(x: nat, k: nat) -> Seq<u8>
    decreases k,
{
    if k == 0 {
        Seq::empty()
    } else {
        seq![(x % 256) as u8] + low_bytes(x / 256, (k - 1) as nat)
    }
}

/// A number in eight bytes.
pub open spec fn number_bytes(x: usize) -> Seq<u8> {
    low_bytes(x as nat, 8)
}

/// A text, every character in four bytes.
pub open spec fn text_bytes(s: Seq<char>) -> Seq<u8>
    decreases s.len(),
{
    if s.len() == 0 {
        Seq::empty()
    } else {
        text_bytes(s.drop_last()) + low_bytes(s.last() as u32 as nat, 4)
    }
}

/// A quantifier or none: a byte that tells which, then the quantifier.
pub open spec fn quant_bytes(q: Option<QuantIdx>) -> Seq<u8> {
    match q {
        None => seq![0u8],
        Some(q) => seq![1u8] + number_bytes(q.0),
    }
}

/// A truth value in one byte.
pub open spec fn flag_bytes(b: bool) -> Seq<u8> {
    if b {
        seq![1u8]
    } else {
        seq![0u8]
    }
}

impl Filter {
    /// The bytes that spell the filter: one byte for its case, then its
    /// fields.
    pub open spec fn bytes(&self) -> Seq<u8> {
        match *self {
            Filter::MaxNodeIdx(n) => seq![0u8] + number_bytes(n),
            Filter::IgnoreTheorySolving => seq![1u8],
            Filter::IgnoreQuantifier(q) => seq![2u8] + quant_bytes(q),
            Filter::IgnoreAllButQuantifier(q) => seq![3u8] + quant_bytes(q),
            Filter::MaxInsts(n) => seq![4u8] + number_bytes(n),
            Filter::MaxBranching(n) => seq![5u8] + number_bytes(n),
            Filter::ShowNeighbours(i, d) => seq![6u8] + number_bytes(i.0) + flag_bytes(
                d == Direction::Incoming,
            ),
            Filter::VisitSourceTree(i, keep) => seq![7u8] + number_bytes(i.0) + flag_bytes(keep),
            Filter::VisitSubTreeWithRoot(i, keep) => seq![8u8] + number_bytes(i.0) + flag_bytes(
                keep,
            ),
            Filter::MaxDepth(n) => seq![9u8] + number_bytes(n),
            Filter::ShowLongestPath(i) => seq![10u8] + number_bytes(i.0),
            Filter::ShowNamedQuantifier(name) => seq![11u8] + text_bytes(name@),
            Filter::SelectNthMatchingLoop(n) => seq![12u8] + number_bytes(n),
            Filter::ShowMatchingLoopSubgraph => seq![13u8],
        }
    }

    /// The hash of the filter: what the hasher makes of its bytes, written
    /// in one piece.
    pub open spec fn spec_hash(&self) -> u64 {
        DefaultHasher::spec_finish(seq![self.bytes()])
    }

    /// Spells the filter in bytes.
    pub fn to_bytes(&self) -> (r: Vec<u8>)
        ensures
            r@ == self.bytes(),
    {
        let mut out: Vec<u8> = Vec::new();
        match self {
            Filter::MaxNodeIdx(n) => {
                out.push(0);
                push_number(&mut out, *n);
            },
            Filter::IgnoreTheorySolving => {
                out.push(1);
            },
            Filter::IgnoreQuantifier(q) => {
                out.push(2);
                push_quant(&mut out, q);
            },
            Filter::IgnoreAllButQuantifier(q) => {
                out.push(3);
                push_quant(&mut out, q);
            },
            Filter::MaxInsts(n) => {
                out.push(4);
                push_number(&mut out, *n);
            },
            Filter::MaxBranching(n) => {
                out.push(5);
                push_number(&mut out, *n);
            },
            Filter::ShowNeighbours(i, d) => {
                out.push(6);
                push_number(&mut out, i.0);
                match d {
                    Direction::Incoming => out.push(1),
                    Direction::Outgoing => out.push(0),
                }
            },
            Filter::VisitSourceTree(i, keep) => {
                out.push(7);
                push_number(&mut out, i.0);
                push_flag(&mut out, *keep);
            },
            Filter::VisitSubTreeWithRoot(i, keep) => {
                out.push(8);
                push_number(&mut out, i.0);
                push_flag(&mut out, *keep);
            },
            Filter::MaxDepth(n) => {
                out.push(9);
                push_number(&mut out, *n);
            },
            Filter::ShowLongestPath(i) => {
                out.push(10);
                push_number(&mut out, i.0);
            },
            Filter::ShowNamedQuantifier(name) => {
                out.push(11);
                push_text(&mut out, name.as_str());
            },
            Filter::SelectNthMatchingLoop(n) => {
                out.push(12);
                push_number(&mut out, *n);
            },
            Filter::ShowMatchingLoopSubgraph => {
                out.push(13);
            },
        }
        assert(out@ =~= self.bytes());
        out
    }

    /// A number that equal filters share, to tell filters apart quickly:
    /// the hash of the bytes that spell the filter.
    pub fn get_hash(&self) -> (r: u64)
        ensures
            r == self.spec_hash(),
    {
        let bytes = self.to_bytes();
        let mut hasher = DefaultHasher::new();
        hasher.write(bytes.as_slice());
        assert(hasher@ =~= seq![self.bytes()]);
        hasher.finish()
    }
}

/// Appends the `k` lowest bytes of a number.
fn push_low(out: &mut Vec<u8>, x: u64, k: usize)
    ensures
        final(out)@ == old(out)@ + low_bytes(x as nat, k as nat),
{
    let mut rest: u64 = x;
    let mut i: usize = 0;
    assert(out@ + low_bytes(rest as nat, (k - i) as nat) =~= old(out)@ + low_bytes(
        x as nat,
        k as nat,
    ));
    while i < k
        invariant
            0 <= i <= k,
            out@ + low_bytes(rest as nat, (k - i) as nat) == old(out)@ + low_bytes(
                x as nat,
                k as nat,
            ),
        decreases k - i,
    {
        let ghost before = out@;
        let ghost tail = low_bytes((rest / 256) as nat, (k - i - 1) as nat);
        let b: u8 = (rest % 256) as u8;
        out.push(b);
        proof {
            assert(low_bytes(rest as nat, (k - i) as nat) == seq![b] + tail);
            assert(out@ + tail =~= before + (seq![b] + tail));
        }
        rest = rest / 256;
        i += 1;
    }
    assert(out@ + Seq::<u8>::empty() =~= out@);
}

/// Appends a number in eight bytes.
fn push_number(out: &mut Vec<u8>, x: usize)
    ensures
        final(out)@ == old(out)@ + number_bytes(x),
{
    push_low(out, x as u64, 8);
}

/// Appends a truth value in one byte.
fn push_flag(out: &mut Vec<u8>, b: bool)
    ensures
        final(out)@ == old(out)@ + flag_bytes(b),
{
    if b {
        out.push(1);
    } else {
        out.push(0);
    }
    assert(out@ =~= old(out)@ + flag_bytes(b));
}

/// Appends a quantifier or none.
fn push_quant(out: &mut Vec<u8>, q: &Option<QuantIdx>)
    ensures
        final(out)@ == old(out)@ + quant_bytes(*q),
{
    match q {
        None => {
            out.push(0);
        },
        Some(q) => {
            out.push(1);
            push_number(out, q.0);
        },
    }
    assert(out@ =~= old(out)@ + quant_bytes(*q));
}

/// Appends a text, every character in four bytes.
fn push_text(out: &mut Vec<u8>, s: &str)
    ensures
        final(out)@ == old(out)@ + text_bytes(s@),
{
    let n = s.unicode_len();
    let mut i: usize = 0;
    assert(s@.subrange(0, 0) =~= Seq::<char>::empty());
    assert(out@ =~= old(out)@ + text_bytes(s@.subrange(0, 0)));
    while i < n
        invariant
            0 <= i <= n,
            n == s@.len(),
            out@ == old(out)@ + text_bytes(s@.subrange(0, i as int)),
        decreases n - i,
    {
        let c = s.get_char(i);
        let ghost before = out@;
        push_low(out, c as u32 as u64, 4);
        proof {
            let upto = s@.subrange(0, i as int + 1);
            assert(upto.drop_last() =~= s@.subrange(0, i as int));
            assert(upto.last() == c);
            assert(out@ =~= old(out)@ + text_bytes(upto));
        }
        i += 1;
    }
    assert(s@.subrange(0, n as int) =~= s@);
}

} // verus!
