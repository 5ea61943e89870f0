//! Raw records and the coordinates built from them.

use vstd::prelude::*;
use vstd::string::*;

verus! {

/// The field at position `index` of a row, or the empty text where the row
/// is too short to have one.
pub open spec fn field_or_empty(fields: Seq<Seq<char>>, index: int) -> Seq<char> {
    if 0 <= index < fields.len() {
        fields[index]
    } else {
        Seq::empty()
    }
}

/// The coordinate of a position: longitude, latitude and the altitude `0`,
/// separated by commas. Both fields go in as they are written.
pub open spec fn coordinate_text(latitude: Seq<char>, longitude: Seq<char>) -> Seq<char> {
    longitude + seq![','] + latitude + seq![',', '0']
}

/// Builds the coordinate `longitude,latitude,0` from the two fields as they
/// are written; neither is read as a number.
pub fn coordinate(latitude: &str, longitude: &str) -> (coord: String)
    ensures
        coord@ == coordinate_text(latitude@, longitude@),
{
    proof {
        reveal_strlit(",");
        reveal_strlit(",0");
    }
    let mut coord: String = longitude.to_owned();
    coord.append(",");
    coord.append(latitude);
    coord.append(",0");
    assert(coord@ =~= coordinate_text(latitude@, longitude@));
    coord
}

/// One input row: its first three fields, as text.
pub struct RawRecord {
    pub timestamp: String,
    pub latitude: String,
    pub longitude: String,
}

impl RawRecord {
    /// Reads a record off a row: timestamp, latitude and longitude are the
    /// fields at positions 0, 1 and 2. A field that the row lacks is empty;
    /// fields past the third are ignored.
    pub fn from_fields(fields: &Vec<String>) -> (record: RawRecord)
        ensures
            record.timestamp@ == field_or_empty(fields.deep_view(), 0),
            record.latitude@ == field_or_empty(fields.deep_view(), 1),
            record.longitude@ == field_or_empty(fields.deep_view(), 2),
    {
        let timestamp: String = if fields.len() > 0 {
            fields[0].clone()
        } else {
            String::new()
        };
        let latitude: String = if fields.len() > 1 {
            fields[1].clone()
        } else {
            String::new()
        };
        let longitude: String = if fields.len() > 2 {
            fields[2].clone()
        } else {
            String::new()
        };
        RawRecord { timestamp, latitude, longitude }
    }

    /// The coordinate of the position that this record gives.
    pub fn coordinate(&self) -> (coord: String)
        ensures
            coord@ == coordinate_text(self.latitude@, self.longitude@),
    {
        coordinate(self.latitude.as_str(), self.longitude.as_str())
    }
}

} // verus!
