//! The binary layout of side effects and batches.
//!
//! A side effect is its chain byte, its action byte, and its arguments as a
//! length-prefixed sequence of length-prefixed byte strings; a batch is a
//! length-prefixed sequence of side effects. Every length prefix is a compact
//! unsigned integer of up to 32 bits, always in its shortest form. Decoding
//! checks each bound as soon as the length prefix is read, and consumes the
//! whole input.
use crate::types::{
    args_model, batch_model, Action, ChainId, Config, Error, SideEffect, SideEffectModel,
};
use vstd::arithmetic::div_mod::{
    lemma_div_denominator, lemma_fundamental_div_mod, lemma_fundamental_div_mod_converse,
    lemma_mod_breakdown, lemma_small_mod,
};
use vstd::prelude::*;

verus! {

// ---------------------------------------------------------------------------
// The layout, as a function from values to bytes
// ---------------------------------------------------------------------------

/// Two little-endian bytes of `v`.
pub open spec fn le2(v: nat) -> Seq<u8> {
    seq![(v % 256) as u8, ((v / 256) % 256) as u8]
}

/// Four little-endian bytes of `v`.
pub open spec fn le4(v: nat) -> Seq<u8> {
    seq![
        (v % 256) as u8,
        ((v / 256) % 256) as u8,
        ((v / 65536) % 256) as u8,
        ((v / 16777216) % 256) as u8,
    ]
}

/// Compact encoding of `n`: the two low bits of the first byte give the width.
pub open spec fn compact_bytes(n: nat) -> Seq<u8> {
    if n < 64 {
        seq![(n * 4) as u8]
    } else if n < 16384 {
        le2(n * 4 + 1)
    } else if n < 0x4000_0000 {
        le4(n * 4 + 2)
    } else {
        seq![3u8] + le4(n)
    }
}

pub open spec fn chain_byte(c: ChainId) -> u8 {
    match c {
        ChainId::Polkadot => 0,
        ChainId::Kusama => 1,
        ChainId::Rococo => 2,
        ChainId::T3rn => 3,
    }
}

pub open spec fn action_byte(a: Action) -> u8 {
    match a {
        Action::Swap => 0,
        Action::Tran => 1,
        Action::MultiTran => 2,
    }
}

pub open spec fn arg_bytes(a: Seq<u8>) -> Seq<u8> {
    compact_bytes(a.len()) + a
}

pub open spec fn args_bytes(args: Seq<Seq<u8>>) -> Seq<u8>
    decreases args.len(),
{
    if args.len() == 0 {
        seq![]
    } else {
        args_bytes(args.drop_last()) + arg_bytes(args.last())
    }
}

pub open spec fn side_effect_bytes(e: SideEffectModel) -> Seq<u8> {
    seq![chain_byte(e.chain), action_byte(e.action)] + compact_bytes(e.args.len()) + args_bytes(
        e.args,
    )
}

pub open spec fn effects_bytes(s: Seq<SideEffectModel>) -> Seq<u8>
    decreases s.len(),
{
    if s.len() == 0 {
        seq![]
    } else {
        effects_bytes(s.drop_last()) + side_effect_bytes(s.last())
    }
}

pub open spec fn batch_bytes(s: Seq<SideEffectModel>) -> Seq<u8> {
    compact_bytes(s.len()) + effects_bytes(s)
}

/// Every length in the side effect has a compact encoding.
pub open spec fn side_effect_encodable(e: SideEffectModel) -> bool {
    &&& e.args.len() <= u32::MAX
    &&& forall|i: int| 0 <= i < e.args.len() ==> #[trigger] e.args[i].len() <= u32::MAX
}

/// Every length in the batch has a compact encoding.
pub open spec fn batch_encodable(s: Seq<SideEffectModel>) -> bool {
    &&& s.len() <= u32::MAX
    &&& forall|i: int| 0 <= i < s.len() ==> side_effect_encodable(#[trigger] s[i])
}

pub open spec fn side_effect_within(cfg: Config, e: SideEffectModel) -> bool {
    &&& e.args.len() <= cfg.max_args
    &&& forall|i: int| 0 <= i < e.args.len() ==> #[trigger] e.args[i].len() <= cfg.max_bytes_per_arg
}

/// The batch respects every bound of `cfg`, at every level.
pub open spec fn batch_within(cfg: Config, s: Seq<SideEffectModel>) -> bool {
    &&& s.len() <= cfg.max_side_effects
    &&& forall|i: int| 0 <= i < s.len() ==> side_effect_within(cfg, #[trigger] s[i])
}

// ---------------------------------------------------------------------------
// The layout, as a parser from bytes to values
// ---------------------------------------------------------------------------

pub open spec fn read_le2(b: Seq<u8>, p: int) -> nat {
    b[p] as nat + b[p + 1] as nat * 256
}

pub open spec fn read_le4(b: Seq<u8>, p: int) -> nat {
    b[p] as nat + b[p + 1] as nat * 256 + b[p + 2] as nat * 65536 + b[p + 3] as nat * 16777216
}

/// The compact integer at `p`, and the position after it; `None` where the
/// bytes run out or the integer is not in its shortest form.
pub open spec fn parse_compact(b: Seq<u8>, p: int) -> Option<(nat, int)> {
    if p < 0 || p >= b.len() {
        None
    } else if b[p] % 4 == 0 {
        Some(((b[p] / 4) as nat, p + 1))
    } else if b[p] % 4 == 1 {
        if p + 2 <= b.len() && read_le2(b, p) / 4 >= 64 {
            Some((read_le2(b, p) / 4, p + 2))
        } else {
            None
        }
    } else if b[p] % 4 == 2 {
        if p + 4 <= b.len() && read_le4(b, p) / 4 >= 16384 {
            Some((read_le4(b, p) / 4, p + 4))
        } else {
            None
        }
    } else if b[p] == 3 && p + 5 <= b.len() && read_le4(b, p + 1) >= 0x4000_0000 {
        Some((read_le4(b, p + 1), p + 5))
    } else {
        None
    }
}

/// A length-prefixed argument of at most `max` bytes at `p`.
pub open spec fn parse_arg(b: Seq<u8>, p: int, max: nat) -> Option<(Seq<u8>, int)> {
    match parse_compact(b, p) {
        None => None,
        Some((n, q)) => if n <= max && q + n <= b.len() {
            Some((b.subrange(q, q + n), q + n))
        } else {
            None
        },
    }
}

/// `n` consecutive arguments from `p`.
pub open spec fn parse_args(b: Seq<u8>, p: int, n: nat, max: nat) -> Option<(Seq<Seq<u8>>, int)>
    decreases n,
{
    if n == 0 {
        Some((seq![], p))
    } else {
        match parse_args(b, p, (n - 1) as nat, max) {
            None => None,
            Some((s, q)) => match parse_arg(b, q, max) {
                None => None,
                Some((a, r)) => Some((s.push(a), r)),
            },
        }
    }
}

pub open spec fn chain_of(x: u8) -> Option<ChainId> {
    if x == 0 {
        Some(ChainId::Polkadot)
    } else if x == 1 {
        Some(ChainId::Kusama)
    } else if x == 2 {
        Some(ChainId::Rococo)
    } else if x == 3 {
        Some(ChainId::T3rn)
    } else {
        None
    }
}

pub open spec fn action_of(x: u8) -> Option<Action> {
    if x == 0 {
        Some(Action::Swap)
    } else if x == 1 {
        Some(Action::Tran)
    } else if x == 2 {
        Some(Action::MultiTran)
    } else {
        None
    }
}

/// A side effect within the bounds of `cfg` at `p`.
pub open spec fn parse_side_effect(b: Seq<u8>, p: int, cfg: Config) -> Option<(SideEffectModel, int)> {
    if p < 0 || p + 2 > b.len() {
        None
    } else {
        match (chain_of(b[p]), action_of(b[p + 1]), parse_compact(b, p + 2)) {
            (Some(c), Some(a), Some((n, q))) => if n <= cfg.max_args {
                match parse_args(b, q, n, cfg.max_bytes_per_arg as nat) {
                    None => None,
                    Some((args, r)) => Some((SideEffectModel { chain: c, action: a, args }, r)),
                }
            } else {
                None
            },
            _ => None,
        }
    }
}

/// `n` consecutive side effects from `p`.
pub open spec fn parse_effects(b: Seq<u8>, p: int, n: nat, cfg: Config) -> Option<(Seq<SideEffectModel>, int)>
    decreases n,
{
    if n == 0 {
        Some((seq![], p))
    } else {
        match parse_effects(b, p, (n - 1) as nat, cfg) {
            None => None,
            Some((s, q)) => match parse_side_effect(b, q, cfg) {
                None => None,
                Some((e, r)) => Some((s.push(e), r)),
            },
        }
    }
}

/// The batch that `b` encodes, in full and within the bounds of `cfg`.
pub open spec fn parse_batch(b: Seq<u8>, cfg: Config) -> Option<Seq<SideEffectModel>> {
    match parse_compact(b, 0) {
        None => None,
        Some((n, q)) => if n <= cfg.max_side_effects {
            match parse_effects(b, q, n, cfg) {
                Some((s, r)) => if r == b.len() {
                    Some(s)
                } else {
                    None
                },
                None => None,
            }
        } else {
            None
        },
    }
}

/// What decoding `b` under `cfg` gives.
pub open spec fn decode_spec(cfg: Config, b: Seq<u8>) -> Result<Seq<SideEffectModel>, Error> {
    match parse_batch(b, cfg) {
        None => Err(Error::CannotDecodeValue),
        Some(s) => if s.len() == 0 {
            Err(Error::DecodesToNothing)
        } else {
            Ok(s)
        },
    }
}

// ---------------------------------------------------------------------------
// Executable decoding
// ---------------------------------------------------------------------------

fn decode_compact(b: &Vec<u8>, p: usize) -> (r: Option<(u32, usize)>)
    ensures
        r is None <==> parse_compact(b@, p as int) is None,
        r matches Some((n, q)) ==> parse_compact(b@, p as int) == Some((n as nat, q as int)),
{
    if p >= b.len() {
        return None;
    }
    let b0 = b[p];
    if b0 % 4 == 0 {
        Some(((b0 / 4) as u32, p + 1))
    } else if b0 % 4 == 1 {
        if b.len() - p < 2 {
            return None;
        }
        let x: u32 = (b0 as u32 + b[p + 1] as u32 * 256) / 4;
        if x >= 64 {
            Some((x, p + 2))
        } else {
            None
        }
    } else if b0 % 4 == 2 {
        if b.len() - p < 4 {
            return None;
        }
        let v: u64 = b0 as u64 + b[p + 1] as u64 * 256 + b[p + 2] as u64 * 65536 + b[p + 3] as u64
            * 16777216;
        let x: u64 = v / 4;
        if x >= 16384 {
            Some((x as u32, p + 4))
        } else {
            None
        }
    } else {
        if b0 != 3 || b.len() - p < 5 {
            return None;
        }
        let x: u64 = b[p + 1] as u64 + b[p + 2] as u64 * 256 + b[p + 3] as u64 * 65536 + b[p + 4]
            as u64 * 16777216;
        if x >= 0x4000_0000 {
            Some((x as u32, p + 5))
        } else {
            None
        }
    }
}

fn decode_arg(b: &Vec<u8>, p: usize, max: u32) -> (r: Option<(Vec<u8>, usize)>)
    ensures
        r is None <==> parse_arg(b@, p as int, max as nat) is None,
        r matches Some((a, q)) ==> parse_arg(b@, p as int, max as nat) == Some((a@, q as int)),
{
    let (n, q) = match decode_compact(b, p) {
        None => return None,
        Some(x) => x,
    };
    if n > max || b.len() - q < n as usize {
        return None;
    }
    let end: usize = q + n as usize;
    let mut a: Vec<u8> = Vec::new();
    let mut i: usize = q;
    while i < end
        invariant
            q <= i <= end <= b.len(),
            a@ == b@.subrange(q as int, i as int),
        decreases end - i,
    {
        a.push(b[i]);
        i = i + 1;
        assert(a@ =~= b@.subrange(q as int, i as int));
    }
    Some((a, end))
}

fn decode_args(b: &Vec<u8>, p: usize, n: u32, max: u32) -> (r: Option<(Vec<Vec<u8>>, usize)>)
    ensures
        r is None <==> parse_args(b@, p as int, n as nat, max as nat) is None,
        r matches Some((args, q)) ==> parse_args(b@, p as int, n as nat, max as nat) == Some(
            (args_model(args@), q as int),
        ),
{
    let mut args: Vec<Vec<u8>> = Vec::new();
    let mut cur: usize = p;
    let mut i: u32 = 0;
    while i < n
        invariant
            i <= n,
            parse_args(b@, p as int, i as nat, max as nat) == Some((args_model(args@), cur as int)),
        decreases n - i,
    {
        let (a, next) = match decode_arg(b, cur, max) {
            None => {
                proof {
                    lemma_parse_args_none_extends(b@, p as int, (i + 1) as nat, n as nat, max as nat);
                }
                return None;
            },
            Some(x) => x,
        };
        let ghost prev = args@;
        args.push(a);
        assert(args_model(args@) =~= args_model(prev).push(a@));
        cur = next;
        i = i + 1;
    }
    Some((args, cur))
}

/// Once `n` arguments fail to parse, so do more of them.
proof fn lemma_parse_args_none_extends(b: Seq<u8>, p: int, n: nat, m: nat, max: nat)
    requires
        n <= m,
        parse_args(b, p, n, max) is None,
    ensures
        parse_args(b, p, m, max) is None,
    decreases m - n,
{
    if n < m {
        lemma_parse_args_none_extends(b, p, n, (m - 1) as nat, max);
    }
}

/// Once `n` side effects fail to parse, so do more of them.
proof fn lemma_parse_effects_none_extends(b: Seq<u8>, p: int, n: nat, m: nat, cfg: Config)
    requires
        n <= m,
        parse_effects(b, p, n, cfg) is None,
    ensures
        parse_effects(b, p, m, cfg) is None,
    decreases m - n,
{
    if n < m {
        lemma_parse_effects_none_extends(b, p, n, (m - 1) as nat, cfg);
    }
}

fn decode_chain(x: u8) -> (r: Option<ChainId>)
    ensures
        r == chain_of(x),
{
    if x == 0 {
        Some(ChainId::Polkadot)
    } else if x == 1 {
        Some(ChainId::Kusama)
    } else if x == 2 {
        Some(ChainId::Rococo)
    } else if x == 3 {
        Some(ChainId::T3rn)
    } else {
        None
    }
}

fn decode_action(x: u8) -> (r: Option<Action>)
    ensures
        r == action_of(x),
{
    if x == 0 {
        Some(Action::Swap)
    } else if x == 1 {
        Some(Action::Tran)
    } else if x == 2 {
        Some(Action::MultiTran)
    } else {
        None
    }
}

fn decode_side_effect(b: &Vec<u8>, p: usize, cfg: Config) -> (r: Option<(SideEffect, usize)>)
    ensures
        r is None <==> parse_side_effect(b@, p as int, cfg) is None,
        r matches Some((e, q)) ==> parse_side_effect(b@, p as int, cfg) == Some((e@, q as int)),
{
    if b.len() < 2 || p > b.len() - 2 {
        return None;
    }
    let chain = match decode_chain(b[p]) {
        None => return None,
        Some(c) => c,
    };
    let action = match decode_action(b[p + 1]) {
        None => return None,
        Some(a) => a,
    };
    let (n, q) = match decode_compact(b, p + 2) {
        None => return None,
        Some(x) => x,
    };
    if n > cfg.max_args {
        return None;
    }
    match decode_args(b, q, n, cfg.max_bytes_per_arg) {
        None => None,
        Some((args, r)) => Some((SideEffect { chain, action, args }, r)),
    }
}

/// Decodes a whole batch of side effects within the bounds of `cfg`.
///
/// Fails with `CannotDecodeValue` unless `bytes` is exactly the encoding of a
/// batch that respects every bound, and with `DecodesToNothing` where that
/// batch is empty.
pub fn decode_batch(cfg: Config, bytes: &Vec<u8>) -> (r: Result<Vec<SideEffect>, Error>)
    ensures
        r is Ok <==> decode_spec(cfg, bytes@) is Ok,
        r matches Ok(v) ==> decode_spec(cfg, bytes@) == Ok::<Seq<SideEffectModel>, Error>(
            batch_model(v@),
        ),
        r matches Err(e) ==> decode_spec(cfg, bytes@) == Err::<Seq<SideEffectModel>, Error>(e),
        r matches Ok(v) ==> v.len() > 0 && batch_within(cfg, batch_model(v@)),
{
    let (n, q) = match decode_compact(bytes, 0) {
        None => return Err(Error::CannotDecodeValue),
        Some(x) => x,
    };
    if n > cfg.max_side_effects {
        return Err(Error::CannotDecodeValue);
    }
    let mut effects: Vec<SideEffect> = Vec::new();
    let mut cur: usize = q;
    let mut i: u32 = 0;
    while i < n
        invariant
            i <= n,
            n <= cfg.max_side_effects,
            parse_compact(bytes@, 0) == Some((n as nat, q as int)),
            parse_effects(bytes@, q as int, i as nat, cfg) == Some((batch_model(effects@), cur as int)),
        decreases n - i,
    {
        let (e, next) = match decode_side_effect(bytes, cur, cfg) {
            None => {
                proof {
                    lemma_parse_effects_none_extends(bytes@, q as int, (i + 1) as nat, n as nat, cfg);
                }
                return Err(Error::CannotDecodeValue);
            },
            Some(x) => x,
        };
        let ghost prev = effects@;
        effects.push(e);
        proof {
            lemma_batch_model_push(prev, e);
        }
        cur = next;
        i = i + 1;
    }
    if cur != bytes.len() {
        return Err(Error::CannotDecodeValue);
    }
    if effects.len() == 0 {
        return Err(Error::DecodesToNothing);
    }
    proof {
        lemma_parse_batch_within(bytes@, cfg);
    }
    Ok(effects)
}

proof fn lemma_batch_model_push(s: Seq<SideEffect>, e: SideEffect)
    ensures
        batch_model(s.push(e)) == batch_model(s).push(e@),
{
    assert(batch_model(s.push(e)) =~= batch_model(s).push(e@));
}

proof fn lemma_parse_args_within(b: Seq<u8>, p: int, n: nat, max: nat)
    requires
        parse_args(b, p, n, max) is Some,
    ensures
        parse_args(b, p, n, max).unwrap().0.len() == n,
        forall|i: int|
            0 <= i < n ==> #[trigger] parse_args(b, p, n, max).unwrap().0[i].len() <= max,
    decreases n,
{
    if n > 0 {
        lemma_parse_args_within(b, p, (n - 1) as nat, max);
    }
}

proof fn lemma_parse_effects_within(b: Seq<u8>, p: int, n: nat, cfg: Config)
    requires
        parse_effects(b, p, n, cfg) is Some,
    ensures
        parse_effects(b, p, n, cfg).unwrap().0.len() == n,
        forall|i: int|
            0 <= i < n ==> side_effect_within(cfg, #[trigger] parse_effects(b, p, n, cfg).unwrap().0[i]),
    decreases n,
{
    if n > 0 {
        lemma_parse_effects_within(b, p, (n - 1) as nat, cfg);
        let q = parse_effects(b, p, (n - 1) as nat, cfg).unwrap().1;
        let (n2, q2) = parse_compact(b, q + 2).unwrap();
        lemma_parse_args_within(b, q2, n2, cfg.max_bytes_per_arg as nat);
    }
}

/// A parsed batch respects every bound.
proof fn lemma_parse_batch_within(b: Seq<u8>, cfg: Config)
    requires
        parse_batch(b, cfg) is Some,
    ensures
        batch_within(cfg, parse_batch(b, cfg)->0),
{
    let (n, q) = parse_compact(b, 0).unwrap();
    lemma_parse_effects_within(b, q, n, cfg);
}

// ---------------------------------------------------------------------------
// Executable encoding
// ---------------------------------------------------------------------------

fn encode_compact(n: u32, out: &mut Vec<u8>)
    ensures
        final(out)@ == old(out)@ + compact_bytes(n as nat),
{
    let ghost start = out@;
    if n < 64 {
        out.push((n * 4) as u8);
    } else if n < 16384 {
        let v: u32 = n * 4 + 1;
        out.push((v % 256) as u8);
        out.push(((v / 256) % 256) as u8);
    } else if n < 0x4000_0000 {
        let v: u32 = n * 4 + 2;
        out.push((v % 256) as u8);
        out.push(((v / 256) % 256) as u8);
        out.push(((v / 65536) % 256) as u8);
        out.push(((v / 16777216) % 256) as u8);
    } else {
        out.push(3u8);
        out.push((n % 256) as u8);
        out.push(((n / 256) % 256) as u8);
        out.push(((n / 65536) % 256) as u8);
        out.push(((n / 16777216) % 256) as u8);
    }
    assert(out@ =~= start + compact_bytes(n as nat));
}

fn encode_arg(a: &Vec<u8>, out: &mut Vec<u8>)
    requires
        a.len() <= u32::MAX,
    ensures
        final(out)@ == old(out)@ + arg_bytes(a@),
{
    let ghost start = out@;
    encode_compact(a.len() as u32, out);
    let ghost mid = out@;
    let mut i: usize = 0;
    while i < a.len()
        invariant
            i <= a.len(),
            out@ == mid + a@.subrange(0, i as int),
        decreases a.len() - i,
    {
        out.push(a[i]);
        i = i + 1;
        assert(out@ =~= mid + a@.subrange(0, i as int));
    }
    assert(a@.subrange(0, a.len() as int) =~= a@);
    assert(out@ =~= start + arg_bytes(a@));
}

fn encode_side_effect_into(e: &SideEffect, out: &mut Vec<u8>)
    requires
        side_effect_encodable(e@),
    ensures
        final(out)@ == old(out)@ + side_effect_bytes(e@),
{
    let ghost start = out@;
    out.push(encode_chain_byte(e.chain));
    out.push(encode_action_byte(e.action));
    encode_compact(e.args.len() as u32, out);
    let ghost mid = out@;
    let mut i: usize = 0;
    while i < e.args.len()
        invariant
            i <= e.args.len(),
            side_effect_encodable(e@),
            out@ == mid + args_bytes(args_model(e.args@).subrange(0, i as int)),
        decreases e.args.len() - i,
    {
        assert(e@.args[i as int].len() <= u32::MAX);
        encode_arg(&e.args[i], out);
        i = i + 1;
        let ghost pre = args_model(e.args@).subrange(0, i as int);
        assert(pre.drop_last() =~= args_model(e.args@).subrange(0, i - 1));
        assert(out@ =~= mid + args_bytes(pre));
    }
    assert(args_model(e.args@).subrange(0, e.args.len() as int) =~= e@.args);
    assert(out@ =~= start + side_effect_bytes(e@));
}

fn encode_chain_byte(c: ChainId) -> (r: u8)
    ensures
        r == chain_byte(c),
{
    match c {
        ChainId::Polkadot => 0,
        ChainId::Kusama => 1,
        ChainId::Rococo => 2,
        ChainId::T3rn => 3,
    }
}

fn encode_action_byte(a: Action) -> (r: u8)
    ensures
        r == action_byte(a),
{
    match a {
        Action::Swap => 0,
        Action::Tran => 1,
        Action::MultiTran => 2,
    }
}

/// The bytes of one side effect.
pub fn encode_side_effect(e: &SideEffect) -> (r: Vec<u8>)
    requires
        side_effect_encodable(e@),
    ensures
        r@ == side_effect_bytes(e@),
{
    let mut out: Vec<u8> = Vec::new();
    encode_side_effect_into(e, &mut out);
    assert(out@ =~= side_effect_bytes(e@));
    out
}

/// The bytes of a batch of side effects.
pub fn encode_batch(batch: &Vec<SideEffect>) -> (r: Vec<u8>)
    requires
        batch_encodable(batch_model(batch@)),
    ensures
        r@ == batch_bytes(batch_model(batch@)),
{
    let ghost s = batch_model(batch@);
    let mut out: Vec<u8> = Vec::new();
    encode_compact(batch.len() as u32, &mut out);
    let ghost mid = out@;
    let mut i: usize = 0;
    while i < batch.len()
        invariant
            i <= batch.len(),
            s == batch_model(batch@),
            batch_encodable(s),
            out@ == mid + effects_bytes(s.subrange(0, i as int)),
        decreases batch.len() - i,
    {
        assert(side_effect_encodable(s[i as int]));
        encode_side_effect_into(&batch[i], &mut out);
        i = i + 1;
        let ghost pre = s.subrange(0, i as int);
        assert(pre.drop_last() =~= s.subrange(0, i - 1));
        assert(out@ =~= mid + effects_bytes(pre));
    }
    assert(s.subrange(0, batch.len() as int) =~= s);
    assert(out@ =~= batch_bytes(s));
    out
}

/// The single byte of a chain identifier.
pub fn encode_chain_id(c: ChainId) -> (r: Vec<u8>)
    ensures
        r@ == seq![chain_byte(c)],
{
    let mut out: Vec<u8> = Vec::new();
    out.push(encode_chain_byte(c));
    assert(out@ =~= seq![chain_byte(c)]);
    out
}

/// The chain identifier that `bytes` encodes, which must be exactly one byte.
pub fn decode_chain_id(bytes: &Vec<u8>) -> (r: Result<ChainId, Error>)
    ensures
        bytes.len() == 1 && chain_of(bytes@[0]) is Some ==> r == Ok::<ChainId, Error>(
            chain_of(bytes@[0])->0,
        ),
        !(bytes.len() == 1 && chain_of(bytes@[0]) is Some) ==> r == Err::<ChainId, Error>(
            Error::CannotDecodeValue,
        ),
{
    if bytes.len() != 1 {
        return Err(Error::CannotDecodeValue);
    }
    match decode_chain(bytes[0]) {
        Some(c) => Ok(c),
        None => Err(Error::CannotDecodeValue),
    }
}

// ---------------------------------------------------------------------------
// Round trip
// ---------------------------------------------------------------------------

proof fn lemma_low_byte_mod4(v: nat)
    ensures
        (v % 256) % 4 == v % 4,
{
    lemma_mod_breakdown(v as int, 4, 64);
    let k = (v / 4) % 64;
    lemma_fundamental_div_mod_converse((v % 256) as int, 4, k as int, (v % 4) as int);
}

proof fn lemma_le2_value(v: nat)
    requires
        v < 65536,
    ensures
        (v % 256) + ((v / 256) % 256) * 256 == v,
{
    lemma_fundamental_div_mod(v as int, 256);
    lemma_small_mod(v / 256, 256);
}

proof fn lemma_le4_value(v: nat)
    requires
        v <= u32::MAX,
    ensures
        (v % 256) + ((v / 256) % 256) * 256 + ((v / 65536) % 256) * 65536 + ((v / 16777216) % 256)
            * 16777216 == v,
{
    let w1 = v / 256;
    let w2 = w1 / 256;
    let w3 = w2 / 256;
    lemma_fundamental_div_mod(v as int, 256);
    lemma_fundamental_div_mod(w1 as int, 256);
    lemma_fundamental_div_mod(w2 as int, 256);
    lemma_div_denominator(v as int, 256, 256);
    lemma_div_denominator(v as int, 65536, 256);
    lemma_small_mod(w3, 256);
}

proof fn lemma_compact_round_trip(pre: Seq<u8>, n: nat, rest: Seq<u8>)
    requires
        n <= u32::MAX,
    ensures
        parse_compact(pre + compact_bytes(n) + rest, pre.len() as int) == Some(
            (n, (pre.len() + compact_bytes(n).len()) as int),
        ),
{
    let c = compact_bytes(n);
    let b = pre + c + rest;
    let p = pre.len() as int;
    assert forall|i: int| 0 <= i < c.len() implies b[p + i] == c[i] by {}
    if n < 64 {
    } else if n < 16384 {
        let v = n * 4 + 1;
        lemma_le2_value(v);
        lemma_low_byte_mod4(v);
        assert(read_le2(b, p) == v);
    } else if n < 0x4000_0000 {
        let v = n * 4 + 2;
        lemma_le4_value(v);
        lemma_low_byte_mod4(v);
        assert(read_le4(b, p) == v);
    } else {
        lemma_le4_value(n);
        assert(read_le4(b, p + 1) == n);
    }
}

proof fn lemma_arg_round_trip(pre: Seq<u8>, a: Seq<u8>, rest: Seq<u8>, max: nat)
    requires
        a.len() <= max,
        a.len() <= u32::MAX,
    ensures
        parse_arg(pre + arg_bytes(a) + rest, pre.len() as int, max) == Some(
            (a, (pre.len() + arg_bytes(a).len()) as int),
        ),
{
    let c = compact_bytes(a.len());
    let b = pre + arg_bytes(a) + rest;
    assert(b =~= pre + c + (a + rest));
    lemma_compact_round_trip(pre, a.len(), a + rest);
    let q = (pre.len() + c.len()) as int;
    assert(b.subrange(q, q + a.len()) =~= a);
}

proof fn lemma_args_round_trip(pre: Seq<u8>, args: Seq<Seq<u8>>, rest: Seq<u8>, max: nat)
    requires
        forall|i: int| 0 <= i < args.len() ==> #[trigger] args[i].len() <= max,
        forall|i: int| 0 <= i < args.len() ==> #[trigger] args[i].len() <= u32::MAX,
    ensures
        parse_args(pre + args_bytes(args) + rest, pre.len() as int, args.len(), max) == Some(
            (args, (pre.len() + args_bytes(args).len()) as int),
        ),
    decreases args.len(),
{
    if args.len() > 0 {
        let init = args.drop_last();
        let last = args.last();
        let b = pre + args_bytes(args) + rest;
        assert(b =~= pre + args_bytes(init) + (arg_bytes(last) + rest));
        lemma_args_round_trip(pre, init, arg_bytes(last) + rest, max);
        assert(b =~= (pre + args_bytes(init)) + arg_bytes(last) + rest);
        lemma_arg_round_trip(pre + args_bytes(init), last, rest, max);
        assert(init.push(last) =~= args);
    }
}

/// Decoding the encoding of a side effect within the bounds gives the side
/// effect back, whatever bytes precede or follow it.
pub proof fn lemma_side_effect_round_trip(
    pre: Seq<u8>,
    e: SideEffectModel,
    rest: Seq<u8>,
    cfg: Config,
)
    requires
        side_effect_within(cfg, e),
        side_effect_encodable(e),
    ensures
        parse_side_effect(pre + side_effect_bytes(e) + rest, pre.len() as int, cfg) == Some(
            (e, (pre.len() + side_effect_bytes(e).len()) as int),
        ),
{
    let b = pre + side_effect_bytes(e) + rest;
    let p = pre.len() as int;
    let head = seq![chain_byte(e.chain), action_byte(e.action)];
    assert(b[p] == chain_byte(e.chain));
    assert(b[p + 1] == action_byte(e.action));
    assert(b =~= (pre + head) + compact_bytes(e.args.len()) + (args_bytes(e.args) + rest));
    lemma_compact_round_trip(pre + head, e.args.len(), args_bytes(e.args) + rest);
    let q = p + 2 + compact_bytes(e.args.len()).len();
    assert(b =~= (pre + head + compact_bytes(e.args.len())) + args_bytes(e.args) + rest);
    lemma_args_round_trip(
        pre + head + compact_bytes(e.args.len()),
        e.args,
        rest,
        cfg.max_bytes_per_arg as nat,
    );
}

proof fn lemma_effects_round_trip(
    pre: Seq<u8>,
    s: Seq<SideEffectModel>,
    rest: Seq<u8>,
    cfg: Config,
)
    requires
        forall|i: int| 0 <= i < s.len() ==> side_effect_within(cfg, #[trigger] s[i]),
        forall|i: int| 0 <= i < s.len() ==> side_effect_encodable(#[trigger] s[i]),
    ensures
        parse_effects(pre + effects_bytes(s) + rest, pre.len() as int, s.len(), cfg) == Some(
            (s, (pre.len() + effects_bytes(s).len()) as int),
        ),
    decreases s.len(),
{
    if s.len() > 0 {
        let init = s.drop_last();
        let last = s.last();
        let b = pre + effects_bytes(s) + rest;
        let p = pre.len() as int;
        let q = (pre.len() + effects_bytes(init).len()) as int;
        assert forall|i: int| 0 <= i < init.len() implies side_effect_within(cfg, #[trigger] init[i])
            && side_effect_encodable(init[i]) by {
            assert(init[i] == s[i]);
        }
        assert(side_effect_within(cfg, s[s.len() - 1]) && side_effect_encodable(s[s.len() - 1]));
        assert(b =~= pre + effects_bytes(init) + (side_effect_bytes(last) + rest));
        lemma_effects_round_trip(pre, init, side_effect_bytes(last) + rest, cfg);
        assert(parse_effects(b, p, init.len(), cfg) == Some((init, q)));
        assert(b =~= (pre + effects_bytes(init)) + side_effect_bytes(last) + rest);
        lemma_side_effect_round_trip(pre + effects_bytes(init), last, rest, cfg);
        assert(parse_side_effect(b, q, cfg) == Some(
            (last, (q + side_effect_bytes(last).len()) as int),
        ));
        assert(init.push(last) =~= s);
    }
}

/// Decoding the encoding of a batch within the bounds gives the batch back.
pub proof fn lemma_batch_decode_encode(cfg: Config, s: Seq<SideEffectModel>)
    requires
        batch_within(cfg, s),
        batch_encodable(s),
    ensures
        parse_batch(batch_bytes(s), cfg) == Some(s),
        s.len() > 0 ==> decode_spec(cfg, batch_bytes(s)) == Ok::<Seq<SideEffectModel>, Error>(s),
{
    let b = batch_bytes(s);
    let e: Seq<u8> = seq![];
    assert(b =~= e + compact_bytes(s.len()) + effects_bytes(s));
    lemma_compact_round_trip(e, s.len(), effects_bytes(s));
    assert(b =~= (e + compact_bytes(s.len())) + effects_bytes(s) + e);
    lemma_effects_round_trip(e + compact_bytes(s.len()), s, e, cfg);
}

// ---------------------------------------------------------------------------
// Bounds and emptiness
// ---------------------------------------------------------------------------

proof fn lemma_args_reject(pre: Seq<u8>, args: Seq<Seq<u8>>, rest: Seq<u8>, max: nat)
    requires
        forall|i: int| 0 <= i < args.len() ==> #[trigger] args[i].len() <= u32::MAX,
        exists|i: int| 0 <= i < args.len() && #[trigger] args[i].len() > max,
    ensures
        parse_args(pre + args_bytes(args) + rest, pre.len() as int, args.len(), max) is None,
    decreases args.len(),
{
    let init = args.drop_last();
    let last = args.last();
    let b = pre + args_bytes(args) + rest;
    assert(b =~= pre + args_bytes(init) + (arg_bytes(last) + rest));
    assert(forall|i: int| 0 <= i < init.len() ==> init[i] == args[i]);
    if exists|i: int| 0 <= i < init.len() && #[trigger] init[i].len() > max {
        lemma_args_reject(pre, init, arg_bytes(last) + rest, max);
    } else {
        lemma_args_round_trip(pre, init, arg_bytes(last) + rest, max);
        let q = (pre.len() + args_bytes(init).len()) as int;
        assert(b =~= (pre + args_bytes(init)) + compact_bytes(last.len()) + (last + rest));
        lemma_compact_round_trip(pre + args_bytes(init), last.len(), last + rest);
        assert(parse_arg(b, q, max) is None);
    }
}

proof fn lemma_side_effect_reject(pre: Seq<u8>, e: SideEffectModel, rest: Seq<u8>, cfg: Config)
    requires
        side_effect_encodable(e),
        !side_effect_within(cfg, e),
    ensures
        parse_side_effect(pre + side_effect_bytes(e) + rest, pre.len() as int, cfg) is None,
{
    let b = pre + side_effect_bytes(e) + rest;
    let head = seq![chain_byte(e.chain), action_byte(e.action)];
    assert(b =~= (pre + head) + compact_bytes(e.args.len()) + (args_bytes(e.args) + rest));
    lemma_compact_round_trip(pre + head, e.args.len(), args_bytes(e.args) + rest);
    if e.args.len() <= cfg.max_args {
        assert(b =~= (pre + head + compact_bytes(e.args.len())) + args_bytes(e.args) + rest);
        lemma_args_reject(
            pre + head + compact_bytes(e.args.len()),
            e.args,
            rest,
            cfg.max_bytes_per_arg as nat,
        );
    }
}

proof fn lemma_effects_reject(pre: Seq<u8>, s: Seq<SideEffectModel>, rest: Seq<u8>, cfg: Config)
    requires
        forall|i: int| 0 <= i < s.len() ==> side_effect_encodable(#[trigger] s[i]),
        exists|i: int| 0 <= i < s.len() && !side_effect_within(cfg, #[trigger] s[i]),
    ensures
        parse_effects(pre + effects_bytes(s) + rest, pre.len() as int, s.len(), cfg) is None,
    decreases s.len(),
{
    let init = s.drop_last();
    let last = s.last();
    let b = pre + effects_bytes(s) + rest;
    assert(b =~= pre + effects_bytes(init) + (side_effect_bytes(last) + rest));
    assert(forall|i: int| 0 <= i < init.len() ==> init[i] == s[i]);
    assert(side_effect_encodable(s[s.len() - 1]));
    if exists|i: int| 0 <= i < init.len() && !side_effect_within(cfg, #[trigger] init[i]) {
        lemma_effects_reject(pre, init, side_effect_bytes(last) + rest, cfg);
    } else {
        lemma_effects_round_trip(pre, init, side_effect_bytes(last) + rest, cfg);
        assert(b =~= (pre + effects_bytes(init)) + side_effect_bytes(last) + rest);
        lemma_side_effect_reject(pre + effects_bytes(init), last, rest, cfg);
    }
}

/// The encoding of a batch that breaks a bound at any level, however deep,
/// never decodes: decoding it fails with `CannotDecodeValue`.
pub proof fn lemma_bound_enforced(cfg: Config, s: Seq<SideEffectModel>)
    requires
        batch_encodable(s),
        !batch_within(cfg, s),
    ensures
        parse_batch(batch_bytes(s), cfg) is None,
        decode_spec(cfg, batch_bytes(s)) == Err::<Seq<SideEffectModel>, Error>(
            Error::CannotDecodeValue,
        ),
{
    let b = batch_bytes(s);
    let e: Seq<u8> = seq![];
    assert(b =~= e + compact_bytes(s.len()) + effects_bytes(s));
    lemma_compact_round_trip(e, s.len(), effects_bytes(s));
    if s.len() <= cfg.max_side_effects {
        assert(b =~= (e + compact_bytes(s.len())) + effects_bytes(s) + e);
        lemma_effects_reject(e + compact_bytes(s.len()), s, e, cfg);
    }
}

/// Decoding fails with `DecodesToNothing` exactly on the encoding of the
/// empty batch, the single byte zero.
pub proof fn lemma_empty_batch(cfg: Config, b: Seq<u8>)
    ensures
        decode_spec(cfg, b) == Err::<Seq<SideEffectModel>, Error>(Error::DecodesToNothing) <==> b
            == seq![0u8],
{
    if b == seq![0u8] {
        assert(parse_compact(b, 0) == Some((0nat, 1int)));
        assert(parse_effects(b, 1, 0, cfg) == Some((Seq::<SideEffectModel>::empty(), 1int)));
    }
    if decode_spec(cfg, b) == Err::<Seq<SideEffectModel>, Error>(Error::DecodesToNothing) {
        let (n, q) = parse_compact(b, 0).unwrap();
        lemma_parse_effects_within(b, q, n, cfg);
        assert(n == 0);
        assert(b[0] == 0);
        assert(b =~= seq![0u8]);
    }
}

// ---------------------------------------------------------------------------
// Only canonical encodings decode
// ---------------------------------------------------------------------------

proof fn lemma_le2_bytes(b0: nat, b1: nat)
    requires
        b0 < 256,
        b1 < 256,
    ensures
        le2(b0 + 256 * b1) == seq![b0 as u8, b1 as u8],
        (b0 + 256 * b1) % 4 == b0 % 4,
{
    let v = b0 + 256 * b1;
    lemma_fundamental_div_mod_converse(v as int, 256, b1 as int, b0 as int);
    lemma_small_mod(b1, 256);
    lemma_fundamental_div_mod(b0 as int, 4);
    lemma_fundamental_div_mod_converse(v as int, 4, (b0 / 4 + 64 * b1) as int, (b0 % 4) as int);
    assert(le2(v) =~= seq![b0 as u8, b1 as u8]);
}

proof fn lemma_le4_bytes(b0: nat, b1: nat, b2: nat, b3: nat)
    requires
        b0 < 256,
        b1 < 256,
        b2 < 256,
        b3 < 256,
    ensures
        le4(b0 + 256 * b1 + 65536 * b2 + 16777216 * b3) == seq![
            b0 as u8,
            b1 as u8,
            b2 as u8,
            b3 as u8,
        ],
        (b0 + 256 * b1 + 65536 * b2 + 16777216 * b3) % 4 == b0 % 4,
{
    let v = b0 + 256 * b1 + 65536 * b2 + 16777216 * b3;
    let w2 = b2 + 256 * b3;
    let w = b1 + 256 * w2;
    assert(v == b0 + 256 * w);
    lemma_fundamental_div_mod_converse(v as int, 256, w as int, b0 as int);
    lemma_fundamental_div_mod_converse(w as int, 256, w2 as int, b1 as int);
    lemma_fundamental_div_mod_converse(w2 as int, 256, b3 as int, b2 as int);
    lemma_div_denominator(v as int, 256, 256);
    lemma_div_denominator(v as int, 65536, 256);
    lemma_small_mod(b3, 256);
    lemma_fundamental_div_mod(b0 as int, 4);
    lemma_fundamental_div_mod_converse(v as int, 4, (b0 / 4 + 64 * w) as int, (b0 % 4) as int);
    assert(le4(v) =~= seq![b0 as u8, b1 as u8, b2 as u8, b3 as u8]);
}

proof fn lemma_compact_sound(b: Seq<u8>, p: int)
    requires
        parse_compact(b, p) is Some,
    ensures
        ({
            let (n, q) = parse_compact(b, p).unwrap();
            &&& n <= u32::MAX
            &&& p < q <= b.len()
            &&& q == p + compact_bytes(n).len()
            &&& b.subrange(p, q) == compact_bytes(n)
        }),
{
    let (n, q) = parse_compact(b, p).unwrap();
    if b[p] % 4 == 0 {
        assert(b.subrange(p, q) =~= compact_bytes(n));
    } else if b[p] % 4 == 1 {
        lemma_le2_bytes(b[p] as nat, b[p + 1] as nat);
        assert(b.subrange(p, q) =~= compact_bytes(n));
    } else if b[p] % 4 == 2 {
        lemma_le4_bytes(b[p] as nat, b[p + 1] as nat, b[p + 2] as nat, b[p + 3] as nat);
        assert(b.subrange(p, q) =~= compact_bytes(n));
    } else {
        lemma_le4_bytes(b[p + 1] as nat, b[p + 2] as nat, b[p + 3] as nat, b[p + 4] as nat);
        assert(b.subrange(p, q) =~= compact_bytes(n));
    }
}

proof fn lemma_args_sound(b: Seq<u8>, p: int, n: nat, max: nat)
    requires
        parse_args(b, p, n, max) is Some,
        0 <= p <= b.len(),
    ensures
        ({
            let (args, q) = parse_args(b, p, n, max).unwrap();
            &&& p <= q <= b.len()
            &&& b.subrange(p, q) == args_bytes(args)
            &&& args.len() == n
            &&& forall|i: int| 0 <= i < args.len() ==> #[trigger] args[i].len() <= max
        }),
    decreases n,
{
    if n == 0 {
        assert(b.subrange(p, p) =~= Seq::<u8>::empty());
    } else {
        lemma_args_sound(b, p, (n - 1) as nat, max);
        let (init, q) = parse_args(b, p, (n - 1) as nat, max).unwrap();
        let (a, r) = parse_arg(b, q, max).unwrap();
        lemma_compact_sound(b, q);
        let (len, q2) = parse_compact(b, q).unwrap();
        let args = init.push(a);
        assert(args.drop_last() =~= init);
        assert(b.subrange(q, r) =~= compact_bytes(len) + a);
        assert(b.subrange(p, r) =~= b.subrange(p, q) + b.subrange(q, r));
    }
}

proof fn lemma_side_effect_sound(b: Seq<u8>, p: int, cfg: Config)
    requires
        parse_side_effect(b, p, cfg) is Some,
    ensures
        ({
            let (e, q) = parse_side_effect(b, p, cfg).unwrap();
            &&& p < q <= b.len()
            &&& b.subrange(p, q) == side_effect_bytes(e)
            &&& side_effect_within(cfg, e)
        }),
{
    let (e, r) = parse_side_effect(b, p, cfg).unwrap();
    lemma_compact_sound(b, p + 2);
    let (n, q) = parse_compact(b, p + 2).unwrap();
    lemma_args_sound(b, q, n, cfg.max_bytes_per_arg as nat);
    assert(b.subrange(p, p + 2) =~= seq![chain_byte(e.chain), action_byte(e.action)]);
    assert(b.subrange(p, r) =~= b.subrange(p, p + 2) + b.subrange(p + 2, q) + b.subrange(q, r));
}

proof fn lemma_effects_sound(b: Seq<u8>, p: int, n: nat, cfg: Config)
    requires
        parse_effects(b, p, n, cfg) is Some,
        0 <= p <= b.len(),
    ensures
        ({
            let (s, q) = parse_effects(b, p, n, cfg).unwrap();
            &&& p <= q <= b.len()
            &&& b.subrange(p, q) == effects_bytes(s)
            &&& s.len() == n
        }),
    decreases n,
{
    if n == 0 {
        assert(b.subrange(p, p) =~= Seq::<u8>::empty());
    } else {
        lemma_effects_sound(b, p, (n - 1) as nat, cfg);
        let (init, q) = parse_effects(b, p, (n - 1) as nat, cfg).unwrap();
        let (e, r) = parse_side_effect(b, q, cfg).unwrap();
        lemma_side_effect_sound(b, q, cfg);
        let s = init.push(e);
        assert(s.drop_last() =~= init);
        assert(b.subrange(p, r) =~= b.subrange(p, q) + b.subrange(q, r));
    }
}

/// Decoding accepts exactly the canonical encodings of non-empty batches
/// within the bounds: `b` decodes to `s` if and only if `b` is the encoding
/// of `s`, `s` respects every bound of `cfg`, and `s` is not empty.
pub proof fn lemma_decode_exact(cfg: Config, b: Seq<u8>, s: Seq<SideEffectModel>)
    ensures
        decode_spec(cfg, b) == Ok::<Seq<SideEffectModel>, Error>(s) <==> (b == batch_bytes(s)
            && batch_within(cfg, s) && s.len() > 0),
{
    if parse_batch(b, cfg) is Some {
        lemma_compact_sound(b, 0);
        let (n, q) = parse_compact(b, 0).unwrap();
        lemma_effects_sound(b, q, n, cfg);
        lemma_parse_batch_within(b, cfg);
        let t = parse_batch(b, cfg).unwrap();
        assert(b.subrange(0, q) == compact_bytes(n));
        assert(b =~= b.subrange(0, q) + b.subrange(q, b.len() as int));
        assert(b == batch_bytes(t));
    }
    if b == batch_bytes(s) && batch_within(cfg, s) && s.len() > 0 {
        lemma_batch_decode_encode(cfg, s);
    }
}

} // verus!
