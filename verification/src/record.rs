//! The record store: one comma-separated row becomes one validated
//! range record, or is skipped; a source's rows become the ordered
//! sequence of its accepted records.

use vstd::prelude::*;

use crate::text::{split_spec, trim_spec, parse_u32_spec, split, trim, parse_u32, COMMA};

verus! {

/// The number of comma-separated fields a well-formed row has.
pub const ROW_FIELDS: usize = 8;

/// One entry of the index: an inclusive IPv4 range, addresses as 32-bit
/// integers with the most significant octet first, and its location
/// payload.
#[derive(Debug)]
pub struct GeoRange {
    pub range_start: u32,
    pub range_end: u32,
    pub country_code: Vec<u8>,
    pub city: Vec<u8>,
}

/// The mathematical model of a record.
pub struct GeoRangeModel {
    pub range_start: u32,
    pub range_end: u32,
    pub country_code: Seq<u8>,
    pub city: Seq<u8>,
}

impl View for GeoRange {
    type V = GeoRangeModel;

    open spec fn view(&self) -> GeoRangeModel {
        GeoRangeModel {
            range_start: self.range_start,
            range_end: self.range_end,
            country_code: self.country_code@,
            city: self.city@,
        }
    }
}

impl DeepView for GeoRange {
    type V = GeoRangeModel;

    open spec fn deep_view(&self) -> GeoRangeModel {
        self.view()
    }
}

/// A record's bounds are ordered: its range is never empty.
pub open spec fn wf_record(r: GeoRangeModel) -> bool {
    r.range_start <= r.range_end
}

/// The record a row yields, if any: the row must cut into exactly eight
/// comma fields; after stripping spaces and double quotes, fields 0 and
/// 1 must read as unsigned 32-bit integers in order (start before end).
/// The payload is field 2 (country code) and field 5 (city), stripped
/// the same way. Every other row is skipped, never fatal.
pub open spec fn parse_row_spec(line: Seq<u8>) -> Option<GeoRangeModel> {
    let fields = split_spec(line, COMMA);
    if fields.len() != ROW_FIELDS {
        Option::None
    } else {
        match (parse_u32_spec(trim_spec(fields[0])), parse_u32_spec(trim_spec(fields[1]))) {
            (Option::Some(start), Option::Some(end)) => if start <= end {
                Option::Some(
                    GeoRangeModel {
                        range_start: start,
                        range_end: end,
                        country_code: trim_spec(fields[2]),
                        city: trim_spec(fields[5]),
                    },
                )
            } else {
                Option::None
            },
            _ => Option::None,
        }
    }
}

/// Validates one row, as `parse_row_spec` describes.
pub fn parse_row(line: &Vec<u8>) -> (r: Option<GeoRange>)
    ensures
        match r {
            Option::Some(g) => parse_row_spec(line@) == Option::Some(g@),
            Option::None => parse_row_spec(line@) is None,
        },
{
    let fields = split(line, COMMA);
    proof {
        assert(forall|k: int| 0 <= k < fields@.len() ==> fields.deep_view()[k] == fields@[k]@);
    }
    if fields.len() != ROW_FIELDS {
        return Option::None;
    }
    let f0 = trim(&fields[0]);
    let f1 = trim(&fields[1]);
    let start = match parse_u32(&f0) {
        Option::Some(v) => v,
        Option::None => {
            return Option::None;
        },
    };
    let end = match parse_u32(&f1) {
        Option::Some(v) => v,
        Option::None => {
            return Option::None;
        },
    };
    if start > end {
        return Option::None;
    }
    let country_code = trim(&fields[2]);
    let city = trim(&fields[5]);
    Option::Some(GeoRange { range_start: start, range_end: end, country_code, city })
}

/// Every accepted record of a source, in row order: rows that
/// `parse_row_spec` skips leave no trace, rows it accepts keep their
/// relative order.
pub open spec fn parsed_records(lines: Seq<Seq<u8>>) -> Seq<GeoRangeModel>
    decreases lines.len(),
{
    if lines.len() == 0 {
        Seq::empty()
    } else {
        let prefix = parsed_records(lines.drop_last());
        match parse_row_spec(lines.last()) {
            Option::Some(g) => prefix.push(g),
            Option::None => prefix,
        }
    }
}

/// Every record the store accepts has ordered bounds.
pub proof fn lemma_parsed_records_wf(lines: Seq<Seq<u8>>)
    ensures
        forall|j: int|
            0 <= j < parsed_records(lines).len() ==> wf_record(#[trigger] parsed_records(lines)[j]),
    decreases lines.len(),
{
    if lines.len() > 0 {
        lemma_parsed_records_wf(lines.drop_last());
        let prefix = parsed_records(lines.drop_last());
        let recs = parsed_records(lines);
        assert(forall|j: int| 0 <= j < recs.len() ==> wf_record(#[trigger] recs[j])) by {
            assert(forall|j: int| 0 <= j < prefix.len() ==> wf_record(#[trigger] prefix[j]));
            assert(forall|j: int| 0 <= j < prefix.len() ==> recs[j] == prefix[j]);
        }
    }
}

/// Row parsing is order-preserving and local: the records of one source
/// laid after another are the first source's records followed by the
/// second's, so no load reorders rows and no row's fate depends on its
/// neighbours.
pub proof fn lemma_parsed_records_append(a: Seq<Seq<u8>>, b: Seq<Seq<u8>>)
    ensures
        parsed_records(a + b) == parsed_records(a) + parsed_records(b),
    decreases b.len(),
{
    if b.len() == 0 {
        assert(a + b =~= a);
        assert(parsed_records(a) + parsed_records(b) =~= parsed_records(a));
    } else {
        assert((a + b).drop_last() =~= a + b.drop_last());
        assert((a + b).last() == b.last());
        lemma_parsed_records_append(a, b.drop_last());
        match parse_row_spec(b.last()) {
            Option::Some(g) => {
                assert((parsed_records(a) + parsed_records(b.drop_last())).push(g)
                    =~= parsed_records(a) + parsed_records(b.drop_last()).push(g));
            },
            Option::None => {},
        }
    }
}

/// A row the store accepts is in the loaded records, however many
/// malformed rows stand around it: bad rows never abort a load and
/// never push a good one out.
pub proof fn lemma_accepted_row_kept(lines: Seq<Seq<u8>>, i: int)
    requires
        0 <= i < lines.len(),
        parse_row_spec(lines[i]) is Some,
    ensures
        exists|j: int|
            0 <= j < parsed_records(lines).len() && parsed_records(lines)[j] == parse_row_spec(
                lines[i],
            ).unwrap(),
    decreases lines.len(),
{
    let recs = parsed_records(lines);
    if i == lines.len() - 1 {
        assert(recs[recs.len() - 1] == parse_row_spec(lines[i]).unwrap());
    } else {
        assert(lines.drop_last()[i] == lines[i]);
        lemma_accepted_row_kept(lines.drop_last(), i);
        let j = choose|j: int|
            0 <= j < parsed_records(lines.drop_last()).len() && parsed_records(lines.drop_last())[j]
                == parse_row_spec(lines[i]).unwrap();
        assert(recs[j] == parse_row_spec(lines[i]).unwrap());
    }
}

} // verus!
