//! Assembling the raw fields of one line into a typed record.
//!
//! A line must split into exactly thirteen cells: ten schema fields followed
//! by three reserved cells that are only checked for presence and then
//! discarded. A required text field must be non-empty; an empty optional
//! cell is normalized to absence, never to an empty string; the year cell
//! must parse in full as a `u32`; the loss-percentage cell must match the
//! floating-point grammar in full, and the record keeps its validated text.
//! A line that breaks any of these rules, or is not valid quoted text,
//! yields no record at all.

use vstd::prelude::*;

use crate::numbers::{
    check_float_text, is_digit, is_float_text, lemma_non_digit_rejects_u32, parse_u32,
    parse_u32_spec, PLUS,
};
use crate::splitter::{cells_of, split_rows, split_spec};

verus! {

/// The byte ` `, used between the two parts of a derived key.
pub const SPACE: u8 = 32;

/// The number of cells a line must split into: ten schema fields and three
/// reserved trailing cells.
pub const EXPECTED_ARITY: usize = 13;

/// One accepted line, fully typed. The loss percentage is kept as its
/// validated text, since its numeric value is never read here.
#[derive(Debug, Clone)]
pub struct Record {
    pub m49code: Vec<u8>,
    pub country: Vec<u8>,
    pub region: Option<Vec<u8>>,
    pub cpc_code: Vec<u8>,
    pub commodity: Vec<u8>,
    pub year: u32,
    pub loss_percentage: Vec<u8>,
    pub activity: Option<Vec<u8>>,
    pub food_supply_stage: Option<Vec<u8>>,
    pub cause_of_loss: Option<Vec<u8>>,
}

/// How an optional field relates to its raw cell: an empty cell is absence,
/// a non-empty cell is kept as it is.
pub open spec fn opt_matches(o: Option<Vec<u8>>, cell: Seq<u8>) -> bool {
    match o {
        None => cell.len() == 0,
        Some(v) => v@ == cell && cell.len() > 0,
    }
}

/// Whether a sequence of raw cells satisfies the schema.
pub open spec fn fields_ok(fs: Seq<Seq<u8>>) -> bool {
    &&& fs.len() == EXPECTED_ARITY
    &&& fs[0].len() > 0
    &&& fs[1].len() > 0
    &&& fs[3].len() > 0
    &&& fs[4].len() > 0
    &&& parse_u32_spec(fs[5]) is Some
    &&& is_float_text(fs[6])
}

/// Whether a line is accepted: it tokenizes, and its cells satisfy the
/// schema.
pub open spec fn line_accepted(line: Seq<u8>) -> bool {
    &&& split_spec(line) is Ok
    &&& fields_ok(split_spec(line)->Ok_0)
}

/// How a record relates to the raw cells it was assembled from.
pub open spec fn record_matches(rec: Record, fs: Seq<Seq<u8>>) -> bool {
    &&& fs.len() == EXPECTED_ARITY
    &&& rec.m49code@ == fs[0]
    &&& rec.country@ == fs[1]
    &&& opt_matches(rec.region, fs[2])
    &&& rec.cpc_code@ == fs[3]
    &&& rec.commodity@ == fs[4]
    &&& parse_u32_spec(fs[5]) == Some(rec.year)
    &&& rec.loss_percentage@ == fs[6]
    &&& opt_matches(rec.activity, fs[7])
    &&& opt_matches(rec.food_supply_stage, fs[8])
    &&& opt_matches(rec.cause_of_loss, fs[9])
}

/// A copy of one raw cell.
fn cell_copy(cell: &Vec<u8>) -> (r: Vec<u8>)
    ensures
        r@ == cell@,
{
    let c = cell.clone();
    proof {
        assert(c@ =~= cell@);
    }
    c
}

/// An optional field from its raw cell: absent when the cell is empty.
fn opt_cell(cell: &Vec<u8>) -> (r: Option<Vec<u8>>)
    ensures
        opt_matches(r, cell@),
{
    if cell.len() == 0 {
        None
    } else {
        Some(cell_copy(cell))
    }
}

/// Parses one line into a record, or rejects it.
///
/// Returns `Some` exactly when the line tokenizes and its cells satisfy the
/// schema, and then every field of the record comes from its cell; any
/// malformed quoting, wrong cell count, empty required field or unparsable
/// numeric cell yields `None`.
pub fn parse_record(line: &[u8]) -> (r: Option<Record>)
    ensures
        r is Some <==> line_accepted(line@),
        r matches Some(rec) ==> record_matches(rec, split_spec(line@)->Ok_0),
{
    let fields = match split_rows(line) {
        Ok(f) => f,
        Err(_) => {
            return None;
        },
    };
    let ghost fs = cells_of(fields@);
    if fields.len() != EXPECTED_ARITY {
        return None;
    }
    if fields[0].len() == 0 || fields[1].len() == 0 || fields[3].len() == 0 || fields[4].len()
        == 0 {
        return None;
    }
    let year = match parse_u32(fields[5].as_slice()) {
        Some(y) => y,
        None => {
            return None;
        },
    };
    if !check_float_text(fields[6].as_slice()) {
        return None;
    }
    Some(
        Record {
            m49code: cell_copy(&fields[0]),
            country: cell_copy(&fields[1]),
            region: opt_cell(&fields[2]),
            cpc_code: cell_copy(&fields[3]),
            commodity: cell_copy(&fields[4]),
            year,
            loss_percentage: cell_copy(&fields[6]),
            activity: opt_cell(&fields[7]),
            food_supply_stage: opt_cell(&fields[8]),
            cause_of_loss: opt_cell(&fields[9]),
        },
    )
}

/// A record is only ever produced from a line whose cells number exactly
/// thirteen — ten schema fields and three reserved cells; a line with any
/// other count is rejected.
pub proof fn lemma_arity_required(line: Seq<u8>)
    ensures
        line_accepted(line) ==> split_spec(line) is Ok && split_spec(line)->Ok_0.len()
            == EXPECTED_ARITY,
{
}

/// For each of the four optional fields, an empty cell always becomes
/// absence, and a present value is never the empty string.
pub proof fn lemma_optional_normalized(rec: Record, fs: Seq<Seq<u8>>)
    requires
        record_matches(rec, fs),
    ensures
        rec.region is None <==> fs[2].len() == 0,
        rec.activity is None <==> fs[7].len() == 0,
        rec.food_supply_stage is None <==> fs[8].len() == 0,
        rec.cause_of_loss is None <==> fs[9].len() == 0,
        rec.region matches Some(v) ==> v@.len() > 0,
        rec.activity matches Some(v) ==> v@.len() > 0,
        rec.food_supply_stage matches Some(v) ==> v@.len() > 0,
        rec.cause_of_loss matches Some(v) ==> v@.len() > 0,
{
}

/// A year cell holding any byte that is not a digit — beyond one optional
/// leading `+` — rejects the whole line, however the rest of it looks.
pub proof fn lemma_bad_year_rejected(line: Seq<u8>, j: int)
    requires
        split_spec(line) is Ok,
        split_spec(line)->Ok_0.len() == EXPECTED_ARITY,
        0 <= j < split_spec(line)->Ok_0[5].len(),
        !is_digit(split_spec(line)->Ok_0[5][j]),
        !(j == 0 && split_spec(line)->Ok_0[5][0] == PLUS),
    ensures
        !line_accepted(line),
{
    lemma_non_digit_rejects_u32(split_spec(line)->Ok_0[5], j);
}

/// The key an accepted record is grouped by: the commodity code, a space,
/// and the commodity name.
pub fn derive_key(rec: &Record) -> (r: Vec<u8>)
    ensures
        r@ == rec.cpc_code@ + seq![SPACE] + rec.commodity@,
{
    let mut out: Vec<u8> = Vec::new();
    let mut i: usize = 0;
    proof {
        assert(out@ =~= rec.cpc_code@.take(0));
    }
    while i < rec.cpc_code.len()
        invariant
            i <= rec.cpc_code.len(),
            out@ == rec.cpc_code@.take(i as int),
        decreases rec.cpc_code.len() - i,
    {
        out.push(rec.cpc_code[i]);
        proof {
            assert(out@ =~= rec.cpc_code@.take(i + 1));
        }
        i = i + 1;
    }
    proof {
        assert(rec.cpc_code@.take(rec.cpc_code@.len() as int) =~= rec.cpc_code@);
    }
    out.push(SPACE);
    let mut j: usize = 0;
    proof {
        assert(out@ =~= rec.cpc_code@ + seq![SPACE] + rec.commodity@.take(0));
    }
    while j < rec.commodity.len()
        invariant
            j <= rec.commodity.len(),
            out@ == rec.cpc_code@ + seq![SPACE] + rec.commodity@.take(j as int),
        decreases rec.commodity.len() - j,
    {
        out.push(rec.commodity[j]);
        proof {
            assert(out@ =~= rec.cpc_code@ + seq![SPACE] + rec.commodity@.take(j + 1));
        }
        j = j + 1;
    }
    proof {
        assert(rec.cpc_code@.take(rec.cpc_code@.len() as int) =~= rec.cpc_code@);
        assert(out@ =~= rec.cpc_code@ + seq![SPACE] + rec.commodity@);
    }
    out
}

} // verus!
