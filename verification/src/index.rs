//! The range index: the loaded table of records and its containment
//! query. The query is a linear scan in load order, which is correct
//! for every table, sorted or not, disjoint or not, at O(n) per query;
//! the binary-search alternative would be O(log n) but is sound only
//! over tables sorted by range start with mutually disjoint ranges, so
//! the scan is the one implemented here.

use vstd::prelude::*;

use crate::record::{GeoRange, GeoRangeModel, parse_row, parsed_records, wf_record,
    lemma_parsed_records_wf};
use crate::text::copy_bytes;

verus! {

/// What a successful lookup hands back: the matching record's location.
#[derive(Debug)]
pub struct Payload {
    pub country_code: Vec<u8>,
    pub city: Vec<u8>,
}

/// The mathematical model of a payload.
pub struct PayloadModel {
    pub country_code: Seq<u8>,
    pub city: Seq<u8>,
}

impl View for Payload {
    type V = PayloadModel;

    open spec fn view(&self) -> PayloadModel {
        PayloadModel { country_code: self.country_code@, city: self.city@ }
    }
}

/// The containment query: does the record's inclusive range hold the
/// address?
pub open spec fn in_range(r: GeoRangeModel, addr: u32) -> bool {
    r.range_start <= addr && addr <= r.range_end
}

pub open spec fn payload_of(r: GeoRangeModel) -> PayloadModel {
    PayloadModel { country_code: r.country_code, city: r.city }
}

/// The payload of the first record, in load order, whose range contains
/// the address; `None` when no range does.
pub open spec fn lookup_spec(records: Seq<GeoRangeModel>, addr: u32) -> Option<PayloadModel>
    decreases records.len(),
{
    if records.len() == 0 {
        Option::None
    } else if in_range(records[0], addr) {
        Option::Some(payload_of(records[0]))
    } else {
        lookup_spec(records.skip(1), addr)
    }
}

/// The loaded table: the accepted records of one source, in row order.
pub struct RangeIndex {
    pub records: Vec<GeoRange>,
}

impl View for RangeIndex {
    type V = Seq<GeoRangeModel>;

    open spec fn view(&self) -> Seq<GeoRangeModel> {
        self.records.deep_view()
    }
}

impl RangeIndex {
    /// Every record of the table has ordered bounds.
    pub open spec fn wf(&self) -> bool {
        forall|j: int| 0 <= j < self@.len() ==> wf_record(#[trigger] self@[j])
    }

    /// Builds the index for a source: exactly the accepted rows, in row
    /// order, whatever malformed rows the source holds.
    pub fn build(lines: &Vec<Vec<u8>>) -> (ix: RangeIndex)
        ensures
            ix@ == parsed_records(lines.deep_view()),
            ix.wf(),
    {
        let ghost all = lines.deep_view();
        let mut records: Vec<GeoRange> = Vec::new();
        let mut i: usize = 0;
        proof {
            assert(forall|k: int| 0 <= k < lines@.len() ==> all[k] == lines@[k]@);
            assert(records.deep_view() =~= parsed_records(all.take(0)));
        }
        while i < lines.len()
            invariant
                i <= lines@.len(),
                all == lines.deep_view(),
                all.len() == lines@.len(),
                forall|k: int| 0 <= k < lines@.len() ==> all[k] == lines@[k]@,
                records.deep_view() == parsed_records(all.take(i as int)),
            decreases lines@.len() - i,
        {
            let ghost prev = records.deep_view();
            match parse_row(&lines[i]) {
                Option::Some(g) => {
                    let ghost gv = g@;
                    records.push(g);
                    proof {
                        assert(records.deep_view() =~~= prev.push(gv));
                    }
                },
                Option::None => {},
            }
            proof {
                let cur = all.take(i + 1);
                assert(cur.drop_last() =~= all.take(i as int));
                assert(cur.last() == all[i as int]);
                assert(all[i as int] == lines@[i as int]@);
            }
            i = i + 1;
        }
        proof {
            assert(all.take(lines@.len() as int) =~= all);
            lemma_parsed_records_wf(all);
        }
        RangeIndex { records }
    }

    /// Answers the containment query by the linear scan: the first
    /// matching record's payload, or `None` when no loaded range
    /// contains the address.
    pub fn lookup(&self, addr: u32) -> (r: Option<Payload>)
        ensures
            match r {
                Option::Some(p) => lookup_spec(self@, addr) == Option::Some(p@),
                Option::None => lookup_spec(self@, addr) is None,
            },
    {
        let mut i: usize = 0;
        proof {
            assert(self@.skip(0) =~= self@);
        }
        while i < self.records.len()
            invariant
                i <= self@.len(),
                self@.len() == self.records@.len(),
                lookup_spec(self@, addr) == lookup_spec(self@.skip(i as int), addr),
            decreases self@.len() - i,
        {
            proof {
                assert(self@[i as int] == self.records@[i as int]@);
            }
            if addr >= self.records[i].range_start && addr <= self.records[i].range_end {
                let p = Payload {
                    country_code: copy_bytes(&self.records[i].country_code),
                    city: copy_bytes(&self.records[i].city),
                };
                proof {
                    let rest = self@.skip(i as int);
                    assert(rest[0] == self@[i as int]);
                    assert(in_range(rest[0], addr));
                    assert(p@ == payload_of(self@[i as int]));
                }
                return Option::Some(p);
            }
            proof {
                let rest = self@.skip(i as int);
                assert(rest[0] == self@[i as int]);
                assert(!in_range(rest[0], addr));
                assert(rest.skip(1) =~= self@.skip(i + 1));
            }
            i = i + 1;
        }
        proof {
            assert(self@.skip(self@.len() as int) =~= Seq::<GeoRangeModel>::empty());
        }
        Option::None
    }
}

/// Two records whose ranges share no address.
pub open spec fn ranges_disjoint(a: GeoRangeModel, b: GeoRangeModel) -> bool {
    a.range_end < b.range_start || b.range_end < a.range_start
}

/// A table whose records pairwise share no address.
pub open spec fn pairwise_disjoint(records: Seq<GeoRangeModel>) -> bool {
    forall|i: int, j: int|
        0 <= i < records.len() && 0 <= j < records.len() && i != j ==> ranges_disjoint(
            #[trigger] records[i],
            #[trigger] records[j],
        )
}

/// Inclusive bounds: in a table of pairwise disjoint records, looking
/// up a record's own range start, and its own range end, both return
/// that record's payload. (With overlapping records the scan returns
/// the first match instead, which may belong to an earlier record; the
/// disjointness premise rules that out.)
pub proof fn lemma_lookup_inclusive_bounds(records: Seq<GeoRangeModel>, i: int)
    requires
        0 <= i < records.len(),
        wf_record(records[i]),
        pairwise_disjoint(records),
    ensures
        lookup_spec(records, records[i].range_start) == Option::Some(payload_of(records[i])),
        lookup_spec(records, records[i].range_end) == Option::Some(payload_of(records[i])),
    decreases records.len(),
{
    if i == 0 {
        assert(in_range(records[0], records[0].range_start));
        assert(in_range(records[0], records[0].range_end));
    } else {
        assert(ranges_disjoint(records[0], records[i]));
        assert(!in_range(records[0], records[i].range_start));
        assert(!in_range(records[0], records[i].range_end));
        let rest = records.skip(1);
        assert(forall|k: int| 0 <= k < rest.len() ==> rest[k] == records[k + 1]);
        assert(pairwise_disjoint(rest)) by {
            assert(forall|a: int, b: int|
                0 <= a < rest.len() && 0 <= b < rest.len() && a != b ==> ranges_disjoint(
                    #[trigger] rest[a],
                    #[trigger] rest[b],
                )) by {
                assert(forall|a: int, b: int|
                    0 <= a < rest.len() && 0 <= b < rest.len() && a != b ==> ranges_disjoint(
                        #[trigger] records[a + 1],
                        #[trigger] records[b + 1],
                    ));
            }
        }
        lemma_lookup_inclusive_bounds(rest, i - 1);
        assert(rest[i - 1] == records[i]);
    }
}

/// Not found: an address strictly outside every loaded range is found
/// in none of them.
pub proof fn lemma_lookup_outside(records: Seq<GeoRangeModel>, addr: u32)
    requires
        forall|k: int| 0 <= k < records.len() ==> !in_range(#[trigger] records[k], addr),
    ensures
        lookup_spec(records, addr) is None,
    decreases records.len(),
{
    if records.len() > 0 {
        let rest = records.skip(1);
        assert(forall|k: int| 0 <= k < rest.len() ==> rest[k] == records[k + 1]);
        lemma_lookup_outside(rest, addr);
    }
}

} // verus!
