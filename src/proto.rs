//! Decoding of compact blocks from their protocol-buffer encoding.
//!
//! A message is a run of fields, each a varint key (field number and wire type)
//! followed by a varint, eight bytes, a length-prefixed byte string, or four
//! bytes. A known field must carry its declared wire type; unknown fields are
//! skipped; for a singular field the last occurrence wins; a repeated message
//! field keeps every occurrence in order.
use vstd::prelude::*;

use crate::compact::{CompactBlock, CompactOutput, CompactSpend, CompactTx};

verus! {

/// The longest varint, in bytes.
pub const MAX_VARINT_LEN: u8 = 10;

pub const WIRE_VARINT: u8 = 0;
pub const WIRE_FIXED64: u8 = 1;
pub const WIRE_BYTES: u8 = 2;
pub const WIRE_FIXED32: u8 = 5;

/// One field of a message: its number, wire type, varint value (for varint
/// fields) and the byte range of its payload.
#[derive(Clone, Copy)]
pub struct Field {
    pub number: u64,
    pub wire: u8,
    pub value: u64,
    pub start: usize,
    pub end: usize,
}

/// `128^n`.
pub open spec fn radix_pow(n: nat) -> nat
    decreases n,
{
    if n == 0 {
        1
    } else {
        128 * radix_pow((n - 1) as nat)
    }
}

/// The varint starting at `p`, read with at most `fuel` bytes: its value and the
/// position after it.
pub open spec fn varint_at(data: Seq<u8>, p: int, fuel: nat) -> Option<(nat, int)>
    decreases fuel,
{
    if fuel == 0 || p < 0 || p >= data.len() {
        None
    } else if data[p] < 128 {
        Some((data[p] as nat, p + 1))
    } else {
        match varint_at(data, p + 1, (fuel - 1) as nat) {
            Some((v, e)) => Some(((data[p] - 128) as nat + 128 * v, e)),
            None => None,
        }
    }
}

/// A varint value as a 64-bit integer: the bits above the 64th are dropped.
pub open spec fn to_u64(v: nat) -> u64 {
    (v % 0x1_0000_0000_0000_0000) as u64
}

/// The field that starts at `pos`, and the position after it.
pub open spec fn field_at(data: Seq<u8>, pos: int) -> Option<(Field, int)> {
    match varint_at(data, pos, MAX_VARINT_LEN as nat) {
        None => None,
        Some((key, mid1)) => {
            let k = to_u64(key);
            let number = k / 8;
            let wire = (k % 8) as u8;
            if number == 0 {
                None
            } else if wire == WIRE_VARINT {
                match varint_at(data, mid1, MAX_VARINT_LEN as nat) {
                    None => None,
                    Some((v, mid2)) => Some(
                        (Field { number, wire, value: to_u64(v), start: mid1 as usize, end: mid2 as usize }, mid2),
                    ),
                }
            } else if wire == WIRE_FIXED64 {
                if mid1 + 8 <= data.len() {
                    Some((Field { number, wire, value: 0, start: mid1 as usize, end: (mid1 + 8) as usize }, mid1 + 8))
                } else {
                    None
                }
            } else if wire == WIRE_BYTES {
                match varint_at(data, mid1, MAX_VARINT_LEN as nat) {
                    None => None,
                    Some((len, mid2)) => if mid2 + len <= data.len() {
                        Some(
                            (
                                Field { number, wire, value: 0, start: mid2 as usize, end: (mid2 + len) as usize },
                                mid2 + len,
                            ),
                        )
                    } else {
                        None
                    },
                }
            } else if wire == WIRE_FIXED32 {
                if mid1 + 4 <= data.len() {
                    Some((Field { number, wire, value: 0, start: mid1 as usize, end: (mid1 + 4) as usize }, mid1 + 4))
                } else {
                    None
                }
            } else {
                None
            }
        },
    }
}

/// The fields from `pos` to the end of `data`, or none if they do not parse.
pub open spec fn fields_from(data: Seq<u8>, pos: int) -> Option<Seq<Field>>
    decreases data.len() - pos,
{
    if pos < 0 || pos > data.len() {
        None
    } else if pos == data.len() {
        Some(seq![])
    } else {
        match field_at(data, pos) {
            None => None,
            Some((f, next)) => if next <= pos || next > data.len() {
                None
            } else {
                match fields_from(data, next) {
                    None => None,
                    Some(rest) => Some(seq![f] + rest),
                }
            },
        }
    }
}

/// Whether every occurrence of field `number` has wire type `wire`.
pub open spec fn wire_ok(fields: Seq<Field>, number: u64, wire: u8) -> bool {
    forall|i: int| 0 <= i < fields.len() && #[trigger] fields[i].number == number ==> fields[i].wire == wire
}

/// The payload of the last occurrence of bytes field `number`, empty if none.
pub open spec fn last_bytes(data: Seq<u8>, fields: Seq<Field>, number: u64) -> Seq<u8>
    decreases fields.len(),
{
    if fields.len() == 0 {
        seq![]
    } else if fields.last().number == number {
        data.subrange(fields.last().start as int, fields.last().end as int)
    } else {
        last_bytes(data, fields.drop_last(), number)
    }
}

/// The value of the last occurrence of varint field `number`, zero if none.
pub open spec fn last_varint(fields: Seq<Field>, number: u64) -> u64
    decreases fields.len(),
{
    if fields.len() == 0 {
        0
    } else if fields.last().number == number {
        fields.last().value
    } else {
        last_varint(fields.drop_last(), number)
    }
}

/// Whether every field lies within `data`.
pub open spec fn fields_within(fields: Seq<Field>, len: nat) -> bool {
    forall|i: int| 0 <= i < fields.len() ==> #[trigger] fields[i].start <= fields[i].end <= len
}

/// A decoded output: `(cmu, epk, ciphertext)`.
pub type OutputModel = (Seq<u8>, Seq<u8>, Seq<u8>);

/// A decoded transaction: `(hash, spend nullifiers, outputs)`.
pub type TxModel = (Seq<u8>, Seq<Seq<u8>>, Seq<OutputModel>);

/// A decoded block: `(height, hash, time, transactions)`.
pub type BlockModel = (u64, Seq<u8>, u32, Seq<TxModel>);

pub open spec fn spend_model(data: Seq<u8>) -> Option<Seq<u8>> {
    match fields_from(data, 0) {
        None => None,
        Some(fs) => if wire_ok(fs, 1, WIRE_BYTES) {
            Some(last_bytes(data, fs, 1))
        } else {
            None
        },
    }
}

pub open spec fn output_model(data: Seq<u8>) -> Option<OutputModel> {
    match fields_from(data, 0) {
        None => None,
        Some(fs) => if wire_ok(fs, 1, WIRE_BYTES) && wire_ok(fs, 2, WIRE_BYTES) && wire_ok(
            fs,
            3,
            WIRE_BYTES,
        ) {
            Some((last_bytes(data, fs, 1), last_bytes(data, fs, 2), last_bytes(data, fs, 3)))
        } else {
            None
        },
    }
}

/// The spends (field 4) of a transaction's fields, in order.
pub open spec fn spends_model(data: Seq<u8>, fs: Seq<Field>) -> Option<Seq<Seq<u8>>>
    decreases fs.len(),
{
    if fs.len() == 0 {
        Some(seq![])
    } else {
        match spends_model(data, fs.drop_last()) {
            None => None,
            Some(prev) => if fs.last().number == 4 {
                match spend_model(data.subrange(fs.last().start as int, fs.last().end as int)) {
                    None => None,
                    Some(s) => Some(prev.push(s)),
                }
            } else {
                Some(prev)
            },
        }
    }
}

/// The outputs (field 5) of a transaction's fields, in order.
pub open spec fn outputs_model(data: Seq<u8>, fs: Seq<Field>) -> Option<Seq<OutputModel>>
    decreases fs.len(),
{
    if fs.len() == 0 {
        Some(seq![])
    } else {
        match outputs_model(data, fs.drop_last()) {
            None => None,
            Some(prev) => if fs.last().number == 5 {
                match output_model(data.subrange(fs.last().start as int, fs.last().end as int)) {
                    None => None,
                    Some(o) => Some(prev.push(o)),
                }
            } else {
                Some(prev)
            },
        }
    }
}

pub open spec fn tx_model(data: Seq<u8>) -> Option<TxModel> {
    match fields_from(data, 0) {
        None => None,
        Some(fs) => if wire_ok(fs, 1, WIRE_VARINT) && wire_ok(fs, 2, WIRE_BYTES) && wire_ok(
            fs,
            3,
            WIRE_VARINT,
        ) && wire_ok(fs, 4, WIRE_BYTES) && wire_ok(fs, 5, WIRE_BYTES) {
            match (spends_model(data, fs), outputs_model(data, fs)) {
                (Some(s), Some(o)) => Some((last_bytes(data, fs, 2), s, o)),
                _ => None,
            }
        } else {
            None
        },
    }
}

/// The transactions (field 7) of a block's fields, in order.
pub open spec fn txs_model(data: Seq<u8>, fs: Seq<Field>) -> Option<Seq<TxModel>>
    decreases fs.len(),
{
    if fs.len() == 0 {
        Some(seq![])
    } else {
        match txs_model(data, fs.drop_last()) {
            None => None,
            Some(prev) => if fs.last().number == 7 {
                match tx_model(data.subrange(fs.last().start as int, fs.last().end as int)) {
                    None => None,
                    Some(t) => Some(prev.push(t)),
                }
            } else {
                Some(prev)
            },
        }
    }
}

/// The block that `data` encodes: protocol version (1), height (2), hash (3),
/// previous hash (4), time (5), header (6) and transactions (7).
pub open spec fn block_model(data: Seq<u8>) -> Option<BlockModel> {
    match fields_from(data, 0) {
        None => None,
        Some(fs) => if wire_ok(fs, 1, WIRE_VARINT) && wire_ok(fs, 2, WIRE_VARINT) && wire_ok(
            fs,
            3,
            WIRE_BYTES,
        ) && wire_ok(fs, 4, WIRE_BYTES) && wire_ok(fs, 5, WIRE_VARINT) && wire_ok(fs, 6, WIRE_BYTES)
            && wire_ok(fs, 7, WIRE_BYTES) {
            match txs_model(data, fs) {
                Some(t) => Some(
                    (
                        last_varint(fs, 2),
                        last_bytes(data, fs, 3),
                        (last_varint(fs, 5) % 0x1_0000_0000) as u32,
                        t,
                    ),
                ),
                None => None,
            }
        } else {
            None
        },
    }
}

pub open spec fn output_view(o: CompactOutput) -> OutputModel {
    (o.cmu@, o.epk@, o.ciphertext@)
}

pub open spec fn tx_view(t: CompactTx) -> TxModel {
    (
        t.hash@,
        t.spends@.map_values(|s: CompactSpend| s.nf@),
        t.outputs@.map_values(|o: CompactOutput| output_view(o)),
    )
}

pub open spec fn block_view(b: CompactBlock) -> BlockModel {
    (b.height, b.hash@, b.time, b.vtx@.map_values(|t: CompactTx| tx_view(t)))
}

proof fn lemma_radix_pow_pos(n: nat)
    ensures
        radix_pow(n) >= 1,
    decreases n,
{
    if n > 0 {
        lemma_radix_pow_pos((n - 1) as nat);
    }
}

proof fn lemma_varint_bound(data: Seq<u8>, p: int, fuel: nat)
    ensures
        varint_at(data, p, fuel) matches Some((v, e)) ==> v < radix_pow(fuel) && p < e <= data.len(),
    decreases fuel,
{
    if fuel > 0 {
        lemma_radix_pow_pos((fuel - 1) as nat);
        assert(radix_pow(fuel) >= 128);
    }
    if fuel > 0 && 0 <= p < data.len() && data[p] >= 128 {
        lemma_varint_bound(data, p + 1, (fuel - 1) as nat);
        if let Some((v, e)) = varint_at(data, p + 1, (fuel - 1) as nat) {
            let b = (data[p] - 128) as nat;
            let c = radix_pow((fuel - 1) as nat);
            assert(b + 128 * v < 128 * c) by (nonlinear_arith)
                requires
                    b < 128,
                    v < c,
            ;
        }
    }
}

proof fn lemma_radix_pow_mono(n: nat)
    requires
        n <= 9,
    ensures
        radix_pow(n) <= 0x8000_0000_0000_0000,
{
    reveal_with_fuel(radix_pow, 10);
    if n < 9 {
        assert(radix_pow(n) <= radix_pow(9)) by {
            lemma_radix_pow_le(n, 9);
        }
    }
}

proof fn lemma_radix_pow_le(m: nat, n: nat)
    requires
        m <= n,
    ensures
        radix_pow(m) <= radix_pow(n),
    decreases n,
{
    if m < n {
        lemma_radix_pow_le(m, (n - 1) as nat);
    }
}

fn read_varint(data: &Vec<u8>, p: usize, fuel: u8) -> (r: Option<(u128, usize)>)
    requires
        fuel <= 10,
    ensures
        r.is_some() == varint_at(data@, p as int, fuel as nat).is_some(),
        r matches Some((v, e)) ==> varint_at(data@, p as int, fuel as nat) == Some((v as nat, e as int)),
    decreases fuel,
{
    if fuel == 0 || p >= data.len() {
        return None;
    }
    let b = data[p];
    if b < 128 {
        return Some((b as u128, p + 1));
    }
    match read_varint(data, p + 1, fuel - 1) {
        None => None,
        Some((v, e)) => {
            proof {
                lemma_varint_bound(data@, p + 1, (fuel - 1) as nat);
                lemma_radix_pow_mono((fuel - 1) as nat);
            }
            assert(128 * v <= 128 * 0x8000_0000_0000_0000u128) by (nonlinear_arith)
                requires
                    v <= 0x8000_0000_0000_0000u128,
            ;
            Some(((b - 128) as u128 + 128 * v, e))
        },
    }
}

fn low_u64(v: u128) -> (r: u64)
    ensures
        r == to_u64(v as nat),
{
    (v % 0x1_0000_0000_0000_0000u128) as u64
}

/// The field that starts at `pos`.
fn read_field(data: &Vec<u8>, pos: usize) -> (r: Option<(Field, usize)>)
    ensures
        r.is_some() == field_at(data@, pos as int).is_some(),
        r matches Some((f, next)) ==> field_at(data@, pos as int) == Some((f, next as int)),
{
    let (key, mid1) = match read_varint(data, pos, MAX_VARINT_LEN) {
        None => return None,
        Some(x) => x,
    };
    proof {
        lemma_varint_bound(data@, pos as int, MAX_VARINT_LEN as nat);
    }
    let k = low_u64(key);
    let number = k / 8;
    let wire = (k % 8) as u8;
    if number == 0 {
        None
    } else if wire == WIRE_VARINT {
        match read_varint(data, mid1, MAX_VARINT_LEN) {
            None => None,
            Some((v, mid2)) => Some((Field { number, wire, value: low_u64(v), start: mid1, end: mid2 }, mid2)),
        }
    } else if wire == WIRE_FIXED64 {
        if mid1 <= data.len() && data.len() - mid1 >= 8 {
            Some((Field { number, wire, value: 0, start: mid1, end: mid1 + 8 }, mid1 + 8))
        } else {
            None
        }
    } else if wire == WIRE_BYTES {
        match read_varint(data, mid1, MAX_VARINT_LEN) {
            None => None,
            Some((len, mid2)) => {
                proof {
                    lemma_varint_bound(data@, mid1 as int, MAX_VARINT_LEN as nat);
                }
                if len <= (data.len() - mid2) as u128 {
                    let end = mid2 + len as usize;
                    Some((Field { number, wire, value: 0, start: mid2, end }, end))
                } else {
                    None
                }
            },
        }
    } else if wire == WIRE_FIXED32 {
        if mid1 <= data.len() && data.len() - mid1 >= 4 {
            Some((Field { number, wire, value: 0, start: mid1, end: mid1 + 4 }, mid1 + 4))
        } else {
            None
        }
    } else {
        None
    }
}

/// The fields of a message, in order.
pub fn read_fields(data: &Vec<u8>) -> (r: Option<Vec<Field>>)
    ensures
        r.is_some() == fields_from(data@, 0).is_some(),
        r matches Some(fs) ==> fields_from(data@, 0) == Some(fs@),
        r matches Some(fs) ==> fields_within(fs@, data@.len()),
{
    let mut acc: Vec<Field> = Vec::new();
    let mut pos: usize = 0;
    while pos < data.len()
        invariant
            pos <= data@.len(),
            fields_from(data@, 0) == match fields_from(data@, pos as int) {
                Some(rest) => Some(acc@ + rest),
                None => None::<Seq<Field>>,
            },
            fields_within(acc@, data@.len()),
        decreases data@.len() - pos,
    {
        match read_field(data, pos) {
            None => {
                return None;
            },
            Some((f, next)) => {
                proof {
                    lemma_field_bounds(data@, pos as int);
                }
                if next <= pos || next > data.len() {
                    return None;
                }
                let ghost prev = acc@;
                acc.push(f);
                proof {
                    if let Some(rest) = fields_from(data@, next as int) {
                        assert(prev + (seq![f] + rest) =~= acc@ + rest);
                    }
                }
                pos = next;
            },
        }
    }
    assert(acc@ + Seq::<Field>::empty() =~= acc@);
    Some(acc)
}

proof fn lemma_field_bounds(data: Seq<u8>, pos: int)
    requires
        data.len() <= usize::MAX,
    ensures
        field_at(data, pos) matches Some((f, next)) ==> f.start <= f.end <= data.len() && f.end
            == next,
{
    lemma_varint_bound(data, pos, MAX_VARINT_LEN as nat);
    if let Some((key, mid1)) = varint_at(data, pos, MAX_VARINT_LEN as nat) {
        lemma_varint_bound(data, mid1, MAX_VARINT_LEN as nat);
    }
}

fn copy_range(data: &Vec<u8>, start: usize, end: usize) -> (r: Vec<u8>)
    requires
        start <= end <= data@.len(),
    ensures
        r@ == data@.subrange(start as int, end as int),
{
    let mut r: Vec<u8> = Vec::new();
    let mut i: usize = start;
    while i < end
        invariant
            start <= i <= end <= data@.len(),
            r@ == data@.subrange(start as int, i as int),
        decreases end - i,
    {
        r.push(data[i]);
        i = i + 1;
        assert(r@ =~= data@.subrange(start as int, i as int));
    }
    r
}

fn check_wire(fs: &Vec<Field>, number: u64, wire: u8) -> (r: bool)
    ensures
        r == wire_ok(fs@, number, wire),
{
    let mut i: usize = 0;
    while i < fs.len()
        invariant
            0 <= i <= fs@.len(),
            forall|k: int| 0 <= k < i && #[trigger] fs@[k].number == number ==> fs@[k].wire == wire,
        decreases fs@.len() - i,
    {
        if fs[i].number == number && fs[i].wire != wire {
            return false;
        }
        i = i + 1;
    }
    true
}

fn get_last_bytes(data: &Vec<u8>, fs: &Vec<Field>, number: u64) -> (r: Vec<u8>)
    requires
        fields_within(fs@, data@.len()),
    ensures
        r@ == last_bytes(data@, fs@, number),
{
    let mut found: Option<usize> = None;
    let mut i: usize = 0;
    while i < fs.len()
        invariant
            0 <= i <= fs@.len(),
            match found {
                None => last_bytes(data@, fs@.take(i as int), number) == Seq::<u8>::empty(),
                Some(k) => k < i && last_bytes(data@, fs@.take(i as int), number) == data@.subrange(
                    fs@[k as int].start as int,
                    fs@[k as int].end as int,
                ),
            },
        decreases fs@.len() - i,
    {
        assert(fs@.take(i + 1).drop_last() =~= fs@.take(i as int));
        if fs[i].number == number {
            found = Some(i);
        }
        i = i + 1;
    }
    assert(fs@.take(fs@.len() as int) =~= fs@);
    match found {
        None => Vec::new(),
        Some(k) => copy_range(data, fs[k].start, fs[k].end),
    }
}

fn get_last_varint(fs: &Vec<Field>, number: u64) -> (r: u64)
    ensures
        r == last_varint(fs@, number),
{
    let mut r: u64 = 0;
    let mut i: usize = 0;
    while i < fs.len()
        invariant
            0 <= i <= fs@.len(),
            r == last_varint(fs@.take(i as int), number),
        decreases fs@.len() - i,
    {
        assert(fs@.take(i + 1).drop_last() =~= fs@.take(i as int));
        if fs[i].number == number {
            r = fs[i].value;
        }
        i = i + 1;
    }
    assert(fs@.take(fs@.len() as int) =~= fs@);
    r
}

fn decode_spend(data: &Vec<u8>) -> (r: Option<CompactSpend>)
    ensures
        r.is_some() == spend_model(data@).is_some(),
        r matches Some(s) ==> spend_model(data@) == Some(s.nf@),
{
    let fs = match read_fields(data) {
        None => return None,
        Some(fs) => fs,
    };
    if !check_wire(&fs, 1, WIRE_BYTES) {
        return None;
    }
    Some(CompactSpend { nf: get_last_bytes(data, &fs, 1) })
}

fn decode_output(data: &Vec<u8>) -> (r: Option<CompactOutput>)
    ensures
        r.is_some() == output_model(data@).is_some(),
        r matches Some(o) ==> output_model(data@) == Some(output_view(o)),
{
    let fs = match read_fields(data) {
        None => return None,
        Some(fs) => fs,
    };
    if !check_wire(&fs, 1, WIRE_BYTES) || !check_wire(&fs, 2, WIRE_BYTES) || !check_wire(
        &fs,
        3,
        WIRE_BYTES,
    ) {
        return None;
    }
    Some(
        CompactOutput {
            cmu: get_last_bytes(data, &fs, 1),
            epk: get_last_bytes(data, &fs, 2),
            ciphertext: get_last_bytes(data, &fs, 3),
        },
    )
}

fn decode_spends(data: &Vec<u8>, fs: &Vec<Field>) -> (r: Option<Vec<CompactSpend>>)
    requires
        fields_within(fs@, data@.len()),
    ensures
        r.is_some() == spends_model(data@, fs@).is_some(),
        r matches Some(v) ==> spends_model(data@, fs@) == Some(v@.map_values(|s: CompactSpend| s.nf@)),
{
    let mut spends: Vec<CompactSpend> = Vec::new();
    let mut i: usize = 0;
    while i < fs.len()
        invariant
            0 <= i <= fs@.len(),
            fields_within(fs@, data@.len()),
            spends_model(data@, fs@.take(i as int)) == Some(
                spends@.map_values(|s: CompactSpend| s.nf@),
            ),
        decreases fs@.len() - i,
    {
        assert(fs@.take(i + 1).drop_last() =~= fs@.take(i as int));
        let f = fs[i];
        assert(fs@.take(i + 1).last() == f);
        assert(f.start <= f.end <= data@.len());
        if f.number == 4 {
            let bytes = copy_range(data, f.start, f.end);
            match decode_spend(&bytes) {
                None => {
                    proof {
                        lemma_spends_none_stays(data@, fs@, i as int + 1);
                    }
                    return None;
                },
                Some(s) => {
                    let ghost prev = spends@;
                    spends.push(s);
                    assert(spends@.map_values(|s: CompactSpend| s.nf@) =~= prev.map_values(
                        |s: CompactSpend| s.nf@,
                    ).push(s.nf@));
                },
            }
        }
        i = i + 1;
    }
    assert(fs@.take(fs@.len() as int) =~= fs@);
    Some(spends)
}

fn decode_outputs(data: &Vec<u8>, fs: &Vec<Field>) -> (r: Option<Vec<CompactOutput>>)
    requires
        fields_within(fs@, data@.len()),
    ensures
        r.is_some() == outputs_model(data@, fs@).is_some(),
        r matches Some(v) ==> outputs_model(data@, fs@) == Some(
            v@.map_values(|o: CompactOutput| output_view(o)),
        ),
{
    let mut outputs: Vec<CompactOutput> = Vec::new();
    let mut i: usize = 0;
    while i < fs.len()
        invariant
            0 <= i <= fs@.len(),
            fields_within(fs@, data@.len()),
            outputs_model(data@, fs@.take(i as int)) == Some(
                outputs@.map_values(|o: CompactOutput| output_view(o)),
            ),
        decreases fs@.len() - i,
    {
        assert(fs@.take(i + 1).drop_last() =~= fs@.take(i as int));
        let f = fs[i];
        assert(fs@.take(i + 1).last() == f);
        assert(f.start <= f.end <= data@.len());
        if f.number == 5 {
            let bytes = copy_range(data, f.start, f.end);
            match decode_output(&bytes) {
                None => {
                    proof {
                        lemma_outputs_none_stays(data@, fs@, i as int + 1);
                    }
                    return None;
                },
                Some(o) => {
                    let ghost prev = outputs@;
                    outputs.push(o);
                    assert(outputs@.map_values(|o: CompactOutput| output_view(o)) =~= prev.map_values(
                        |o: CompactOutput| output_view(o),
                    ).push(output_view(o)));
                },
            }
        }
        i = i + 1;
    }
    assert(fs@.take(fs@.len() as int) =~= fs@);
    Some(outputs)
}

fn decode_tx(data: &Vec<u8>) -> (r: Option<CompactTx>)
    ensures
        r.is_some() == tx_model(data@).is_some(),
        r matches Some(t) ==> tx_model(data@) == Some(tx_view(t)),
{
    let fs = match read_fields(data) {
        None => return None,
        Some(fs) => fs,
    };
    if !check_wire(&fs, 1, WIRE_VARINT) || !check_wire(&fs, 2, WIRE_BYTES) || !check_wire(
        &fs,
        3,
        WIRE_VARINT,
    ) || !check_wire(&fs, 4, WIRE_BYTES) || !check_wire(&fs, 5, WIRE_BYTES) {
        return None;
    }
    let spends = match decode_spends(data, &fs) {
        None => return None,
        Some(v) => v,
    };
    let outputs = match decode_outputs(data, &fs) {
        None => return None,
        Some(v) => v,
    };
    Some(CompactTx { hash: get_last_bytes(data, &fs, 2), spends, outputs })
}

proof fn lemma_spends_none_stays(data: Seq<u8>, fs: Seq<Field>, i: int)
    requires
        0 <= i <= fs.len(),
        spends_model(data, fs.take(i)).is_none(),
    ensures
        spends_model(data, fs).is_none(),
    decreases fs.len() - i,
{
    if i < fs.len() {
        assert(fs.take(i + 1).drop_last() =~= fs.take(i));
        lemma_spends_none_stays(data, fs, i + 1);
    } else {
        assert(fs.take(i) =~= fs);
    }
}

proof fn lemma_outputs_none_stays(data: Seq<u8>, fs: Seq<Field>, i: int)
    requires
        0 <= i <= fs.len(),
        outputs_model(data, fs.take(i)).is_none(),
    ensures
        outputs_model(data, fs).is_none(),
    decreases fs.len() - i,
{
    if i < fs.len() {
        assert(fs.take(i + 1).drop_last() =~= fs.take(i));
        lemma_outputs_none_stays(data, fs, i + 1);
    } else {
        assert(fs.take(i) =~= fs);
    }
}

proof fn lemma_txs_none_stays(data: Seq<u8>, fs: Seq<Field>, i: int)
    requires
        0 <= i <= fs.len(),
        txs_model(data, fs.take(i)).is_none(),
    ensures
        txs_model(data, fs).is_none(),
    decreases fs.len() - i,
{
    if i < fs.len() {
        assert(fs.take(i + 1).drop_last() =~= fs.take(i));
        lemma_txs_none_stays(data, fs, i + 1);
    } else {
        assert(fs.take(i) =~= fs);
    }
}

fn decode_txs(data: &Vec<u8>, fs: &Vec<Field>) -> (r: Option<Vec<CompactTx>>)
    requires
        fields_within(fs@, data@.len()),
    ensures
        r.is_some() == txs_model(data@, fs@).is_some(),
        r matches Some(v) ==> txs_model(data@, fs@) == Some(v@.map_values(|t: CompactTx| tx_view(t))),
{
    let mut vtx: Vec<CompactTx> = Vec::new();
    let mut i: usize = 0;
    while i < fs.len()
        invariant
            0 <= i <= fs@.len(),
            fields_within(fs@, data@.len()),
            txs_model(data@, fs@.take(i as int)) == Some(vtx@.map_values(|t: CompactTx| tx_view(t))),
        decreases fs@.len() - i,
    {
        assert(fs@.take(i + 1).drop_last() =~= fs@.take(i as int));
        let f = fs[i];
        assert(fs@.take(i + 1).last() == f);
        assert(f.start <= f.end <= data@.len());
        if f.number == 7 {
            let bytes = copy_range(data, f.start, f.end);
            match decode_tx(&bytes) {
                None => {
                    proof {
                        lemma_txs_none_stays(data@, fs@, i as int + 1);
                    }
                    return None;
                },
                Some(t) => {
                    let ghost prev = vtx@;
                    vtx.push(t);
                    assert(vtx@.map_values(|t: CompactTx| tx_view(t)) =~= prev.map_values(
                        |t: CompactTx| tx_view(t),
                    ).push(tx_view(t)));
                },
            }
        }
        i = i + 1;
    }
    assert(fs@.take(fs@.len() as int) =~= fs@);
    Some(vtx)
}

/// Decodes a compact block; none when the bytes are not a well-formed encoding.
pub fn decode_compact_block(data: &Vec<u8>) -> (r: Option<CompactBlock>)
    ensures
        r.is_some() == block_model(data@).is_some(),
        r matches Some(b) ==> block_model(data@) == Some(block_view(b)),
{
    let fs = match read_fields(data) {
        None => return None,
        Some(fs) => fs,
    };
    if !check_wire(&fs, 1, WIRE_VARINT) || !check_wire(&fs, 2, WIRE_VARINT) || !check_wire(
        &fs,
        3,
        WIRE_BYTES,
    ) || !check_wire(&fs, 4, WIRE_BYTES) || !check_wire(&fs, 5, WIRE_VARINT) || !check_wire(
        &fs,
        6,
        WIRE_BYTES,
    ) || !check_wire(&fs, 7, WIRE_BYTES) {
        return None;
    }
    let vtx = match decode_txs(data, &fs) {
        None => return None,
        Some(v) => v,
    };
    let height = get_last_varint(&fs, 2);
    let time = (get_last_varint(&fs, 5) % 0x1_0000_0000) as u32;
    Some(CompactBlock { height, hash: get_last_bytes(data, &fs, 3), time, vtx })
}

} // verus!
