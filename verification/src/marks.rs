//! A player's pencil marks, given as JSON: a 9×9 array whose entries are a
//! candidate mask (bit `d - 1` for digit `d`) or a list of digits. Only the
//! entries of unsolved white cells are read.
use vstd::prelude::*;
use crate::board::{HumanStr8ts, N};
use crate::mask::{bit, bit_of};

verus! {

/// One entry of the sheet: a non-negative integer, an array (each item an
/// integer or not), or anything else.
#[derive(Debug, Clone)]
pub enum MarkEntry {
    Mask(u64),
    Digits(Vec<Option<u64>>),
    Other,
}

/// The sheet: not an array, or its rows, each the row's entries or `None`
/// where the row is not an array.
#[derive(Debug, Clone)]
pub enum MarkSheet {
    NotArray,
    Rows(Vec<Option<Vec<MarkEntry>>>),
}

/// Why a sheet was refused.
#[derive(Debug, Clone, PartialEq, Eq)]
pub enum MarksError {
    /// The text is not JSON.
    BadJson,
    /// The sheet is not an array.
    NotArray,
    /// The sheet does not have 9 rows.
    RowCount,
    /// The row is not an array.
    RowNotArray(usize),
    /// The row does not have 9 entries.
    ColCount(usize),
    /// The mask at (row, column) holds more than digits.
    MaskRange(usize, usize),
    /// The entry is neither an integer nor an array.
    NotDigitList,
    /// An item of a digit list is not an integer.
    DigitNotInteger,
    /// An item of a digit list is not a digit.
    DigitRange(u64),
}

/// What serde_json reads from `text`: `None` when it is not JSON, else the
/// sheet it describes.
pub uninterp spec fn marks_json(text: Seq<char>) -> Option<MarkSheet>;

/// Reads the text with `serde_json::from_str` into a `serde_json::Value`,
/// then tells the kinds of its values apart: arrays, unsigned integers
/// (`as_u64`) and the rest. The result is a function of the text alone.
#[verifier::external_body]
fn parse_marks_json(text: &str) -> (r: Option<MarkSheet>)
    ensures r == marks_json(text@),
{
    match serde_json::from_str::<serde_json::Value>(text) {
        Ok(serde_json::Value::Array(rows)) => Some(MarkSheet::Rows(rows.into_iter().map(|row| match row {
            serde_json::Value::Array(cells) => Some(cells.into_iter().map(|cell| match cell {
                serde_json::Value::Array(ds) => MarkEntry::Digits(ds.iter().map(|d| d.as_u64()).collect()),
                other => other.as_u64().map_or(MarkEntry::Other, MarkEntry::Mask),
            }).collect()),
            _ => None,
        }).collect())),
        Ok(_) => Some(MarkSheet::NotArray),
        Err(_) => None,
    }
}

/// Every item of the list is a digit.
pub open spec fn digits_ok(ds: Seq<Option<u64>>) -> bool {
    forall|i: int| 0 <= i < ds.len() ==> ((#[trigger] ds[i]) matches Some(d) && 1 <= d <= 9)
}

/// The mask of the first `j` digits of the list.
pub open spec fn list_mask(ds: Seq<Option<u64>>, j: int) -> u16
    decreases j,
{
    if j <= 0 {
        0
    } else {
        list_mask(ds, j - 1) | bit_of(ds[j - 1]->0 as u8)
    }
}

/// The entry is a mask of digits or a list of digits.
pub open spec fn entry_ok(e: MarkEntry) -> bool {
    match e {
        MarkEntry::Mask(m) => m <= 0x1FF,
        MarkEntry::Digits(ds) => digits_ok(ds@),
        MarkEntry::Other => false,
    }
}

/// The candidate mask an acceptable entry gives.
pub open spec fn entry_mask(e: MarkEntry) -> u16 {
    match e {
        MarkEntry::Mask(m) => m as u16,
        MarkEntry::Digits(ds) => list_mask(ds@, ds@.len() as int),
        MarkEntry::Other => 0,
    }
}

/// The cell is read: it is white and unsolved.
pub open spec fn read_cell(s: HumanStr8ts, r: int, c: int) -> bool {
    !s.is_black[r][c] && !s.solved[r][c]
}

/// The sheet has 9 rows of 9 entries, and every entry of an unsolved white
/// cell is acceptable.
pub open spec fn sheet_ok(s: HumanStr8ts, sheet: MarkSheet) -> bool {
    match sheet {
        MarkSheet::NotArray => false,
        MarkSheet::Rows(rows) => {
            &&& rows@.len() == 9
            &&& forall|r: int| 0 <= r < 9 ==> ((#[trigger] rows@[r]) matches Some(cells) && cells@.len() == 9)
            &&& forall|r: int, c: int| 0 <= r < 9 && 0 <= c < 9 && #[trigger] read_cell(s, r, c) ==> entry_ok(rows@[r]->0@[c])
        },
    }
}

/// The masks read from an acceptable sheet: each unsolved white cell's entry,
/// 0 elsewhere.
pub open spec fn sheet_masks(s: HumanStr8ts, sheet: MarkSheet, masks: [[u16; N]; N]) -> bool {
    match sheet {
        MarkSheet::NotArray => false,
        MarkSheet::Rows(rows) => forall|r: int, c: int| 0 <= r < 9 && 0 <= c < 9 ==> #[trigger] masks[r][c] == if read_cell(s, r, c) {
            entry_mask(rows@[r]->0@[c])
        } else {
            0
        },
    }
}

/// The mask of a list of digits, or why it is refused.
fn digit_list_mask(ds: &Vec<Option<u64>>) -> (r: Result<u16, MarksError>)
    ensures
        r is Ok <==> digits_ok(ds@),
        r matches Ok(m) ==> m == list_mask(ds@, ds@.len() as int),
{
    let mut mask: u16 = 0;
    let mut k: usize = 0;
    while k < ds.len()
        invariant
            k <= ds@.len(),
            forall|i: int| 0 <= i < k ==> ((#[trigger] ds@[i]) matches Some(d) && 1 <= d <= 9),
            mask == list_mask(ds@, k as int),
        decreases ds@.len() - k,
    {
        match ds[k] {
            None => {
                return Err(MarksError::DigitNotInteger);
            },
            Some(d) => {
                if d < 1 || d > 9 {
                    return Err(MarksError::DigitRange(d));
                }
                mask = mask | bit(d as u8);
            },
        }
        k = k + 1;
    }
    Ok(mask)
}

/// The mask an entry gives, or why it is refused.
fn entry_mask_of(e: &MarkEntry, r: usize, c: usize) -> (res: Result<u16, MarksError>)
    ensures
        res is Ok <==> entry_ok(*e),
        res matches Ok(m) ==> m == entry_mask(*e),
{
    match e {
        MarkEntry::Mask(m) => {
            if *m > 0x1FF {
                Err(MarksError::MaskRange(r, c))
            } else {
                Ok(*m as u16)
            }
        },
        MarkEntry::Digits(ds) => digit_list_mask(ds),
        MarkEntry::Other => Err(MarksError::NotDigitList),
    }
}

/// Reads the masks of the unsolved white cells from a sheet: it succeeds
/// exactly when the sheet has 9 rows of 9 entries and every entry read is a
/// mask of digits or a list of digits.
pub fn candidate_masks(s: &HumanStr8ts, sheet: &MarkSheet) -> (res: Result<[[u16; N]; N], MarksError>)
    ensures
        res is Ok <==> sheet_ok(*s, *sheet),
        res matches Ok(m) ==> sheet_masks(*s, *sheet, m),
{
    let rows = match sheet {
        MarkSheet::NotArray => {
            return Err(MarksError::NotArray);
        },
        MarkSheet::Rows(rows) => rows,
    };
    if rows.len() != N {
        return Err(MarksError::RowCount);
    }
    let mut masks = [[0u16; N]; N];
    let mut r: usize = 0;
    while r < N
        invariant
            r <= 9, rows@.len() == 9, *sheet == MarkSheet::Rows(*rows),
            forall|i: int| 0 <= i < r ==> ((#[trigger] rows@[i]) matches Some(cells) && cells@.len() == 9),
            forall|i: int, c: int| 0 <= i < r && 0 <= c < 9 && #[trigger] read_cell(*s, i, c) ==> entry_ok(rows@[i]->0@[c]),
            forall|i: int, c: int| 0 <= i < 9 && 0 <= c < 9 ==> #[trigger] masks[i][c] == if i < r && read_cell(*s, i, c) {
                entry_mask(rows@[i]->0@[c])
            } else {
                0
            },
        decreases 9 - r,
    {
        let cells = match &rows[r] {
            None => {
                return Err(MarksError::RowNotArray(r));
            },
            Some(cells) => cells,
        };
        if cells.len() != N {
            return Err(MarksError::ColCount(r));
        }
        let mut c: usize = 0;
        while c < N
            invariant
                r < 9, c <= 9, rows@.len() == 9, *sheet == MarkSheet::Rows(*rows),
                rows@[r as int] == Some(*cells), cells@.len() == 9,
                forall|i: int| 0 <= i < r ==> ((#[trigger] rows@[i]) matches Some(cells) && cells@.len() == 9),
                forall|i: int, c: int| 0 <= i < r && 0 <= c < 9 && #[trigger] read_cell(*s, i, c) ==> entry_ok(rows@[i]->0@[c]),
                forall|j: int| 0 <= j < c && #[trigger] read_cell(*s, r as int, j) ==> entry_ok(cells@[j]),
                forall|i: int, j: int| 0 <= i < 9 && 0 <= j < 9 ==> #[trigger] masks[i][j] == if (i < r || (i == r && j < c)) && read_cell(*s, i, j) {
                    entry_mask(rows@[i]->0@[j])
                } else {
                    0
                },
            decreases 9 - c,
        {
            if !s.is_black[r][c] && !s.solved[r][c] {
                let m = entry_mask_of(&cells[c], r, c);
                match m {
                    Err(e) => {
                        proof {
                            assert(read_cell(*s, r as int, c as int));
                        }
                        return Err(e);
                    },
                    Ok(v) => {
                        masks[r][c] = v;
                    },
                }
            }
            c = c + 1;
        }
        r = r + 1;
    }
    Ok(masks)
}

/// Reads a player's pencil marks from JSON text for the board `s`.
pub fn read_marks(s: &HumanStr8ts, text: &str) -> (res: Result<[[u16; N]; N], MarksError>)
    ensures
        marks_json(text@) is None ==> res == Err::<[[u16; N]; N], MarksError>(MarksError::BadJson),
        marks_json(text@) matches Some(sheet) ==> (res is Ok <==> sheet_ok(*s, sheet)) && (res matches Ok(m) ==> sheet_masks(*s, sheet, m)),
{
    match parse_marks_json(text) {
        None => Err(MarksError::BadJson),
        Some(sheet) => candidate_masks(s, &sheet),
    }
}

} // verus!
