//! The tabular overlay's data sources: rewriting a shareable document
//! link into its delimited-text export link, and decoding delimited text
//! into the row-of-cells snapshot the overlay applier works on.  Fetching
//! a link or reading a file belongs to the surrounding program.

use vstd::prelude::*;

use crate::store::GameEntry;

verus! {

/// The segments of `s` split on `/`, in order; empty segments included.
pub open spec fn spec_split_from(s: Seq<char>, i: int, start: int) -> Seq<Seq<char>>
    decreases s.len() - i,
{
    if i < 0 || i >= s.len() {
        seq![s.subrange(start, s.len() as int)]
    } else if s[i] == '/' {
        seq![s.subrange(start, i)] + spec_split_from(s, i + 1, i + 1)
    } else {
        spec_split_from(s, i + 1, start)
    }
}

pub open spec fn spec_split(s: Seq<char>) -> Seq<Seq<char>> {
    spec_split_from(s, 0, 0)
}

/// The position of the first segment equal to `t`, or -1 when absent.
pub open spec fn find_str(parts: Seq<Seq<char>>, t: Seq<char>) -> int
    decreases parts.len(),
{
    if parts.len() == 0 {
        -1
    } else if parts[0] == t {
        0
    } else {
        let r = find_str(parts.drop_first(), t);
        if r < 0 {
            -1
        } else {
            r + 1
        }
    }
}

/// `find_str` names the first position of the segment, and -1 means it
/// occurs nowhere.
pub proof fn lemma_find_str(parts: Seq<Seq<char>>, t: Seq<char>)
    ensures
        find_str(parts, t) >= 0 ==> {
            &&& find_str(parts, t) < parts.len()
            &&& parts[find_str(parts, t)] == t
            &&& forall|j: int| 0 <= j < find_str(parts, t) ==> parts[j] != t
        },
        find_str(parts, t) < 0 ==> forall|j: int| 0 <= j < parts.len() ==> parts[j] != t,
    decreases parts.len(),
{
    if parts.len() > 0 && parts[0] != t {
        lemma_find_str(parts.drop_first(), t);
        assert(forall|j: int|
            1 <= j < parts.len() ==> #[trigger] parts[j] == parts.drop_first()[j - 1]);
    }
}

/// The export link of a shareable document link: the segment after the
/// first `d` segment is the document id, wrapped into the fixed export
/// address; a link without a `d` segment, or with nothing after it, has
/// no export form.
pub open spec fn spec_to_csv_url(s: Seq<char>) -> Option<Seq<char>> {
    let parts = spec_split(s);
    let p = find_str(parts, "d"@);
    if p >= 0 && p + 1 < parts.len() {
        Option::Some(
            "https://docs.google.com/spreadsheets/d/"@ + parts[p + 1]
                + "/export?format=csv&gid=0"@,
        )
    } else {
        Option::None
    }
}

/// Splits a link on `/` into its segments, each copied out.
fn split_segments(s: &str) -> (parts: Vec<String>)
    ensures
        parts.deep_view() == spec_split(s@),
{
    let len = s.unicode_len();
    let mut parts: Vec<String> = Vec::new();
    let mut start: usize = 0;
    let mut i: usize = 0;
    proof {
        assert(parts.deep_view() + spec_split(s@) =~= spec_split(s@));
    }
    while i < len
        invariant
            start <= i <= len,
            len == s@.len(),
            spec_split(s@) == parts.deep_view() + spec_split_from(s@, i as int, start as int),
        decreases len - i,
    {
        let ghost prev = parts.deep_view();
        let ghost st0 = start as int;
        let c = s.get_char(i);
        if c == '/' {
            let seg = String::from_str(s.substring_char(start, i));
            parts.push(seg);
            proof {
                assert(parts.deep_view() =~= prev.push(s@.subrange(st0, i as int)));
                assert(prev + (seq![s@.subrange(st0, i as int)] + spec_split_from(s@, i + 1, i + 1))
                    =~= prev.push(s@.subrange(st0, i as int)) + spec_split_from(s@, i + 1, i + 1));
            }
            start = i + 1;
        }
        i = i + 1;
    }
    let last = String::from_str(s.substring_char(start, len));
    let ghost prev = parts.deep_view();
    parts.push(last);
    proof {
        assert(spec_split_from(s@, len as int, start as int) =~= seq![
            s@.subrange(start as int, len as int),
        ]);
        assert(parts.deep_view() =~= prev.push(s@.subrange(start as int, len as int)));
        assert(prev + seq![s@.subrange(start as int, len as int)] =~= prev.push(
            s@.subrange(start as int, len as int),
        ));
    }
    parts
}

/// Rewrites a shareable document link into its delimited-text export
/// link: the segment after the first `d` segment is taken as the
/// document id; a link without one yields nothing.
pub fn to_csv_url(sheet_url: &str) -> (r: Option<String>)
    ensures
        match r {
            Option::Some(u) => spec_to_csv_url(sheet_url@) == Option::Some(u@),
            Option::None => spec_to_csv_url(sheet_url@) is None,
        },
{
    let parts = split_segments(sheet_url);
    let ghost partsd = spec_split(sheet_url@);
    let n = parts.len();
    let mut k: usize = 0;
    while k < n
        invariant
            k <= n,
            n == parts@.len(),
            partsd == parts.deep_view(),
            partsd == spec_split(sheet_url@),
            forall|j: int| 0 <= j < k ==> partsd[j] != "d"@,
        decreases n - k,
    {
        if crate::parser::str_eq(parts[k].as_str(), "d") {
            proof {
                lemma_find_str(partsd, "d"@);
                assert(partsd[k as int] == "d"@);
                assert(find_str(partsd, "d"@) == k);
            }
            if k + 1 < n {
                let mut u = String::from_str("https://docs.google.com/spreadsheets/d/");
                u.append(parts[k + 1].as_str());
                u.append("/export?format=csv&gid=0");
                return Option::Some(u);
            } else {
                return Option::None;
            }
        }
        k = k + 1;
    }
    proof {
        lemma_find_str(partsd, "d"@);
    }
    Option::None
}

/// What delimited text decodes to: the rows of cells the reader yields,
/// or nothing when the reader rejects a record.  Whether it decodes, and
/// to what, is a function of the text alone.
pub uninterp spec fn csv_rows_of(s: Seq<char>) -> Option<Seq<Seq<Seq<char>>>>;

/// Relies on csv::ReaderBuilder and csv::StringRecord: with the default
/// reader the first line is consumed as the column header, and each
/// remaining record becomes one row of cells.  A record the reader
/// rejects makes the whole decode yield nothing.  Both the outcome and
/// the rows depend on the text alone.
#[verifier::external_body]
fn csv_parse(text: &str) -> (r: Option<Vec<Vec<String>>>)
    ensures
        match r {
            Option::Some(rows) => csv_rows_of(text@) == Option::Some(rows.deep_view()),
            Option::None => csv_rows_of(text@) is None,
        },
{
    let mut rdr = csv::ReaderBuilder::new().from_reader(text.as_bytes());
    let mut rows = Vec::new();
    for result in rdr.records() {
        match result {
            Ok(record) => rows.push(record.iter().map(|s| s.to_string()).collect()),
            Err(_) => return None,
        }
    }
    Some(rows)
}

impl GameEntry {
    /// Installs a freshly loaded overlay text as this container's
    /// snapshot: the decoded rows (or nothing when the text does not
    /// decode), and, when no header row was ever chosen, the column
    /// choices of the previous table shape are dropped.  The records are
    /// untouched until the overlay is next applied.
    pub fn load_sheet_data(&mut self, text: &str)
        ensures
            final(self).mods == old(self).mods,
            final(self).appid == old(self).appid,
            final(self).name == old(self).name,
            final(self).path == old(self).path,
            final(self).spreadsheet.sheet_url == old(self).spreadsheet.sheet_url,
            final(self).spreadsheet.sheet_file == old(self).spreadsheet.sheet_file,
            final(self).spreadsheet.header_row_index == old(self).spreadsheet.header_row_index,
            old(self).spreadsheet.header_row_index is Some ==> final(self).spreadsheet == old(
                self,
            ).spreadsheet,
            old(self).spreadsheet.header_row_index is None ==> {
                &&& final(self).spreadsheet.id_col is None
                &&& final(self).spreadsheet.status_col is None
                &&& final(self).spreadsheet.name_col is None
            },
            match csv_rows_of(text@) {
                Option::Some(rows) => final(self).sheet_data matches Option::Some(v)
                    && v.deep_view() == rows,
                Option::None => final(self).sheet_data is None,
            },
    {
        self.sheet_data = csv_parse(text);
        self.spreadsheet.clear_columns_without_header();
    }
}

} // verus!
