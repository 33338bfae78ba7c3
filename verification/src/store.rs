//! The reconciliation store: one record per installed workshop item,
//! merged from the local inventory scan, the remote metadata fetch and
//! the tabular overlay.  Each operation is a deterministic, field-level
//! merge; no source may clobber what another source owns.

use vstd::prelude::*;

use crate::config::SpreadsheetConfig;
use crate::text;

verus! {

/// One tracked workshop item, scoped to one container.
///
/// `name` and `last_updated` are owned by the remote fetch, `status` by
/// the overlay, `local_updated` by the local scan; `id` is the identity.
/// The timestamps are string-encoded unsigned integers.
#[derive(Clone, Debug)]
pub struct WorkshopMod {
    pub id: String,
    pub name: Option<String>,
    pub status: Option<String>,
    pub last_updated: Option<String>,
    pub local_updated: Option<String>,
}

/// Both absent, or both present with the same characters.
pub open spec fn opt_str_eq(a: Option<String>, b: Option<String>) -> bool {
    match (a, b) {
        (Option::None, Option::None) => true,
        (Option::Some(x), Option::Some(y)) => x@ == y@,
        _ => false,
    }
}

/// The two records carry the same text in every field.
pub open spec fn mod_view_eq(a: WorkshopMod, b: WorkshopMod) -> bool {
    &&& a.id@ == b.id@
    &&& opt_str_eq(a.name, b.name)
    &&& opt_str_eq(a.status, b.status)
    &&& opt_str_eq(a.last_updated, b.last_updated)
    &&& opt_str_eq(a.local_updated, b.local_updated)
}

/// A copy of an optional string with the same characters.
fn clone_opt_string(o: &Option<String>) -> (r: Option<String>)
    ensures
        opt_str_eq(r, *o),
{
    match o {
        Option::Some(s) => Option::Some(s.clone()),
        Option::None => Option::None,
    }
}

impl WorkshopMod {
    /// Whether the local copy is older than the published one: known only
    /// when both timestamps are present and read as integers.
    pub open spec fn spec_outdated(&self) -> Option<bool> {
        match (self.local_updated, self.last_updated) {
            (Option::Some(l), Option::Some(r)) => match (
                text::spec_parse_u64(l@),
                text::spec_parse_u64(r@),
            ) {
                (Option::Some(lv), Option::Some(rv)) => Option::Some(lv < rv),
                _ => Option::None,
            },
            _ => Option::None,
        }
    }

    /// Compares the local and remote timestamps; unknown when either is
    /// absent or not a number.
    pub fn is_outdated(&self) -> (r: Option<bool>)
        ensures
            r == self.spec_outdated(),
    {
        let local = match &self.local_updated {
            Option::Some(l) => match text::parse_u64(l.as_str()) {
                Option::Some(lv) => lv,
                Option::None => {
                    return Option::None;
                },
            },
            Option::None => {
                return Option::None;
            },
        };
        let remote = match &self.last_updated {
            Option::Some(t) => match text::parse_u64(t.as_str()) {
                Option::Some(rv) => rv,
                Option::None => {
                    return Option::None;
                },
            },
            Option::None => {
                return Option::None;
            },
        };
        Option::Some(local < remote)
    }
}

/// The position of the first record with this id, or -1 when absent.
pub open spec fn find_mod(mods: Seq<WorkshopMod>, id: Seq<char>) -> int
    decreases mods.len(),
{
    if mods.len() == 0 {
        -1
    } else if mods[0].id@ == id {
        0
    } else {
        let r = find_mod(mods.drop_first(), id);
        if r < 0 {
            -1
        } else {
            r + 1
        }
    }
}

/// `find_mod` names the first record with the id, and -1 means no
/// record has it.
pub proof fn lemma_find_mod(mods: Seq<WorkshopMod>, id: Seq<char>)
    ensures
        find_mod(mods, id) >= 0 ==> {
            &&& find_mod(mods, id) < mods.len()
            &&& mods[find_mod(mods, id)].id@ == id
            &&& forall|j: int| 0 <= j < find_mod(mods, id) ==> mods[j].id@ != id
        },
        find_mod(mods, id) < 0 ==> forall|j: int| 0 <= j < mods.len() ==> mods[j].id@ != id,
    decreases mods.len(),
{
    if mods.len() > 0 && mods[0].id@ != id {
        lemma_find_mod(mods.drop_first(), id);
        assert(forall|j: int| 1 <= j < mods.len() ==> #[trigger] mods[j] == mods.drop_first()[j - 1]);
    }
}

/// The first record with this id, when there is one.
fn find_mod_exec(mods: &Vec<WorkshopMod>, id: &String) -> (r: Option<usize>)
    ensures
        match r {
            Option::Some(j) => j == find_mod(mods@, id@) && j < mods@.len(),
            Option::None => find_mod(mods@, id@) < 0,
        },
{
    let n = mods.len();
    let mut k: usize = 0;
    while k < n
        invariant
            k <= n,
            n == mods@.len(),
            forall|j: int| 0 <= j < k ==> mods@[j].id@ != id@,
        decreases n - k,
    {
        if crate::parser::str_eq(mods[k].id.as_str(), id.as_str()) {
            proof {
                lemma_find_mod(mods@, id@);
            }
            return Option::Some(k);
        }
        k = k + 1;
    }
    proof {
        lemma_find_mod(mods@, id@);
    }
    Option::None
}

/// What one rescanned record must look like: the id and the fresh local
/// timestamp come from the scan (the timestamp printed in decimal); the
/// remote and overlay fields are kept from the old record with the same
/// id, or absent for an id never seen before.
pub open spec fn rescan_item_ok(
    old_mods: Seq<WorkshopMod>,
    item: (String, u64),
    m: WorkshopMod,
) -> bool {
    let j = find_mod(old_mods, item.0@);
    &&& m.id@ == item.0@
    &&& match m.local_updated {
        Option::Some(s) => {
            &&& text::all_digits(s@)
            &&& text::digits_val(s@) == item.1 as int
            &&& s@.len() >= 1
            &&& (s@[0] == '0' ==> s@.len() == 1)
        },
        Option::None => false,
    }
    &&& if j >= 0 {
        &&& opt_str_eq(m.name, old_mods[j].name)
        &&& opt_str_eq(m.status, old_mods[j].status)
        &&& opt_str_eq(m.last_updated, old_mods[j].last_updated)
    } else {
        &&& m.name is None
        &&& m.status is None
        &&& m.last_updated is None
    }
}

/// The record mapping after a rescan: one record per scanned item, in
/// scan order, each merged as `rescan_item_ok` says.  Old records whose
/// id the scan no longer lists are gone.
pub open spec fn rescan_post(
    old_mods: Seq<WorkshopMod>,
    local: Seq<(String, u64)>,
    new_mods: Seq<WorkshopMod>,
) -> bool {
    &&& new_mods.len() == local.len()
    &&& forall|k: int| 0 <= k < local.len() ==> rescan_item_ok(old_mods, local[k], new_mods[k])
}

/// Rescanning keeps remote metadata: a still-installed id keeps its
/// fetched display name, remote timestamp and overlay status, and only
/// the local timestamp is renewed from the scan.
pub proof fn lemma_rescan_preserves_remote(
    old_mods: Seq<WorkshopMod>,
    local: Seq<(String, u64)>,
    new_mods: Seq<WorkshopMod>,
    k: int,
)
    requires
        rescan_post(old_mods, local, new_mods),
        0 <= k < local.len(),
        find_mod(old_mods, local[k].0@) >= 0,
    ensures
        opt_str_eq(new_mods[k].name, old_mods[find_mod(old_mods, local[k].0@)].name),
        opt_str_eq(new_mods[k].last_updated, old_mods[find_mod(old_mods, local[k].0@)].last_updated),
        opt_str_eq(new_mods[k].status, old_mods[find_mod(old_mods, local[k].0@)].status),
        new_mods[k].local_updated matches Option::Some(s) && text::digits_val(s@) == local[k].1 as int,
{
    assert(rescan_item_ok(old_mods, local[k], new_mods[k]));
}

/// Rescanning drops uninstalled items: an id the scan does not list
/// appears in no record afterwards.
pub proof fn lemma_rescan_drops_uninstalled(
    old_mods: Seq<WorkshopMod>,
    local: Seq<(String, u64)>,
    new_mods: Seq<WorkshopMod>,
    id: Seq<char>,
)
    requires
        rescan_post(old_mods, local, new_mods),
        forall|k: int| 0 <= k < local.len() ==> local[k].0@ != id,
    ensures
        forall|k: int| 0 <= k < new_mods.len() ==> new_mods[k].id@ != id,
{
    assert forall|k: int| 0 <= k < new_mods.len() implies new_mods[k].id@ != id by {
        assert(rescan_item_ok(old_mods, local[k], new_mods[k]));
    }
}

/// What applying one remote result must do to the records: every record
/// with the result's id takes the fetched name and remote timestamp,
/// which are authoritative; everything else stands untouched.
/// What one remote result does to one record: a matching id takes the
/// fetched name and remote timestamp; any other record stays as it was.
pub open spec fn remote_item_ok(
    a: WorkshopMod,
    b: WorkshopMod,
    id: Seq<char>,
    title: Seq<char>,
    updated: Seq<char>,
) -> bool {
    if a.id@ == id {
        &&& b.id@ == id
        &&& b.name matches Option::Some(t) && t@ == title
        &&& b.last_updated matches Option::Some(u) && u@ == updated
        &&& opt_str_eq(b.status, a.status)
        &&& opt_str_eq(b.local_updated, a.local_updated)
    } else {
        b == a
    }
}

pub open spec fn remote_update_post(
    old_mods: Seq<WorkshopMod>,
    new_mods: Seq<WorkshopMod>,
    id: Seq<char>,
    title: Seq<char>,
    updated: Seq<char>,
) -> bool {
    &&& new_mods.len() == old_mods.len()
    &&& forall|k: int|
        0 <= k < old_mods.len() ==> remote_item_ok(old_mods[k], new_mods[k], id, title, updated)
}

/// A late remote update is a no-op: when no current record has the
/// result's id, the record set after the update is the one before it.
pub proof fn lemma_remote_update_noop(
    old_mods: Seq<WorkshopMod>,
    new_mods: Seq<WorkshopMod>,
    id: Seq<char>,
    title: Seq<char>,
    updated: Seq<char>,
)
    requires
        remote_update_post(old_mods, new_mods, id, title, updated),
        forall|k: int| 0 <= k < old_mods.len() ==> old_mods[k].id@ != id,
    ensures
        new_mods == old_mods,
{
    assert forall|k: int| 0 <= k < old_mods.len() implies new_mods[k] == old_mods[k] by {
        assert(remote_item_ok(old_mods[k], new_mods[k], id, title, updated));
    }
    assert(new_mods =~= old_mods);
}

/// The overlay cell for `id` in column `val_col`, read from the rows of
/// index `after` up to `n` (exclusive): the value comes from the last row
/// whose id cell matches and whose value cell exists, so a later row wins.
pub open spec fn overlay_lookup(
    rows: Seq<Seq<Seq<char>>>,
    after: int,
    n: int,
    id_col: int,
    val_col: int,
    id: Seq<char>,
) -> Option<Seq<char>>
    decreases n,
{
    if n <= after || n <= 0 || n > rows.len() {
        Option::None
    } else {
        let row = rows[n - 1];
        if id_col < row.len() && row[id_col] == id && val_col < row.len() {
            Option::Some(row[val_col])
        } else {
            overlay_lookup(rows, after, n - 1, id_col, val_col, id)
        }
    }
}

/// What the overlay does to one record: the status is overwritten by the
/// status map where the id appears there; the name is only filled in when
/// no name is present yet (the overlay name is a fallback, never an
/// overwrite); the id and both timestamps stand untouched.
pub open spec fn overlay_item_ok(
    a: WorkshopMod,
    b: WorkshopMod,
    rows: Seq<Seq<Seq<char>>>,
    header: int,
    id_col: int,
    status_col: int,
    name_col: Option<usize>,
) -> bool {
    &&& b.id@ == a.id@
    &&& opt_str_eq(b.local_updated, a.local_updated)
    &&& opt_str_eq(b.last_updated, a.last_updated)
    &&& match overlay_lookup(rows, header + 1, rows.len() as int, id_col, status_col, a.id@) {
        Option::Some(s) => b.status matches Option::Some(t) && t@ == s,
        Option::None => opt_str_eq(b.status, a.status),
    }
    &&& {
        let nm = match name_col {
            Option::Some(nc) => overlay_lookup(
                rows,
                header + 1,
                rows.len() as int,
                id_col,
                nc as int,
                a.id@,
            ),
            Option::None => Option::None,
        };
        if a.name is Some {
            opt_str_eq(b.name, a.name)
        } else {
            match nm {
                Option::Some(s) => b.name matches Option::Some(t) && t@ == s,
                Option::None => b.name is None,
            }
        }
    }
}

pub open spec fn overlay_post(
    old_mods: Seq<WorkshopMod>,
    new_mods: Seq<WorkshopMod>,
    rows: Seq<Seq<Seq<char>>>,
    header: int,
    id_col: int,
    status_col: int,
    name_col: Option<usize>,
) -> bool {
    &&& new_mods.len() == old_mods.len()
    &&& forall|k: int|
        0 <= k < old_mods.len() ==> overlay_item_ok(
            old_mods[k],
            new_mods[k],
            rows,
            header,
            id_col,
            status_col,
            name_col,
        )
}

/// Applying the overlay twice with an unchanged snapshot and column
/// mapping changes nothing the second time: the records after the second
/// application read exactly as after the first.
pub proof fn lemma_overlay_idempotent(
    m0: WorkshopMod,
    m1: WorkshopMod,
    m2: WorkshopMod,
    rows: Seq<Seq<Seq<char>>>,
    header: int,
    id_col: int,
    status_col: int,
    name_col: Option<usize>,
)
    requires
        overlay_item_ok(m0, m1, rows, header, id_col, status_col, name_col),
        overlay_item_ok(m1, m2, rows, header, id_col, status_col, name_col),
    ensures
        mod_view_eq(m2, m1),
{
}

/// The overlay cell for `id`, looked up in the loaded rows strictly after
/// the header row; the returned string is a copy of the winning cell.
fn overlay_find(
    rows: &Vec<Vec<String>>,
    after: usize,
    id_col: usize,
    val_col: usize,
    id: &String,
) -> (r: Option<String>)
    ensures
        match r {
            Option::Some(s) => overlay_lookup(
                rows.deep_view(),
                after as int,
                rows@.len() as int,
                id_col as int,
                val_col as int,
                id@,
            ) == Option::Some(s@),
            Option::None => overlay_lookup(
                rows.deep_view(),
                after as int,
                rows@.len() as int,
                id_col as int,
                val_col as int,
                id@,
            ) is None,
        },
{
    let ghost rowsd = rows.deep_view();
    let mut n = rows.len();
    while n > after
        invariant
            n <= rows@.len(),
            rowsd == rows.deep_view(),
            overlay_lookup(rowsd, after as int, rows@.len() as int, id_col as int, val_col as int, id@)
                == overlay_lookup(rowsd, after as int, n as int, id_col as int, val_col as int, id@),
        decreases n,
    {
        let row = &rows[n - 1];
        if id_col < row.len() && val_col < row.len() {
            if crate::parser::str_eq(row[id_col].as_str(), id.as_str()) {
                return Option::Some(row[val_col].clone());
            }
        }
        n = n - 1;
    }
    Option::None
}

/// One tracked container: its identity, display name, install root, the
/// overlay configuration and data, and the merged item records.
#[derive(Debug)]
pub struct GameEntry {
    pub appid: String,
    pub name: String,
    pub path: String,
    pub spreadsheet: SpreadsheetConfig,
    pub sheet_data: Option<Vec<Vec<String>>>,
    pub mods: Vec<WorkshopMod>,
}

impl GameEntry {
    /// Replaces the records with one per scanned item: a known id keeps
    /// its fetched and overlay fields and renews only the local
    /// timestamp; a new id starts with only the local timestamp; an id
    /// the scan no longer lists is dropped.
    pub fn rescan_mods(&mut self, local_items: &Vec<(String, u64)>)
        ensures
            rescan_post(old(self).mods@, local_items@, final(self).mods@),
            final(self).appid == old(self).appid,
            final(self).name == old(self).name,
            final(self).path == old(self).path,
            final(self).spreadsheet == old(self).spreadsheet,
            final(self).sheet_data == old(self).sheet_data,
    {
        let ghost old_mods = self.mods@;
        let mut new_mods: Vec<WorkshopMod> = Vec::new();
        let n = local_items.len();
        let mut k: usize = 0;
        while k < n
            invariant
                k <= n,
                n == local_items@.len(),
                *self == *old(self),
                old_mods == self.mods@,
                new_mods@.len() == k,
                forall|j: int|
                    0 <= j < k ==> rescan_item_ok(old_mods, local_items@[j], new_mods@[j]),
            decreases n - k,
        {
            let id = &local_items[k].0;
            let ts = local_items[k].1;
            let local_updated = Option::Some(text::u64_to_string(ts));
            let m = match find_mod_exec(&self.mods, id) {
                Option::Some(j) => {
                    proof {
                        lemma_find_mod(old_mods, id@);
                    }
                    WorkshopMod {
                        id: id.clone(),
                        name: clone_opt_string(&self.mods[j].name),
                        status: clone_opt_string(&self.mods[j].status),
                        last_updated: clone_opt_string(&self.mods[j].last_updated),
                        local_updated,
                    }
                },
                Option::None => WorkshopMod {
                    id: id.clone(),
                    name: Option::None,
                    status: Option::None,
                    last_updated: Option::None,
                    local_updated,
                },
            };
            new_mods.push(m);
            k = k + 1;
        }
        self.mods = new_mods;
    }

    /// Applies one fetched result: every record with this id takes the
    /// fetched display name and remote timestamp; an id with no current
    /// record changes nothing, so a late update cannot resurrect a
    /// removed record.
    pub fn apply_remote_update(&mut self, id: &str, title: &str, updated: &str)
        ensures
            remote_update_post(old(self).mods@, final(self).mods@, id@, title@, updated@),
            final(self).appid == old(self).appid,
            final(self).name == old(self).name,
            final(self).path == old(self).path,
            final(self).spreadsheet == old(self).spreadsheet,
            final(self).sheet_data == old(self).sheet_data,
    {
        let n = self.mods.len();
        let mut k: usize = 0;
        while k < n
            invariant
                k <= n,
                n == self.mods@.len(),
                self.mods@.len() == old(self).mods@.len(),
                self.appid == old(self).appid,
                self.name == old(self).name,
                self.path == old(self).path,
                self.spreadsheet == old(self).spreadsheet,
                self.sheet_data == old(self).sheet_data,
                forall|j: int|
                    0 <= j < k ==> remote_item_ok(
                        old(self).mods@[j],
                        self.mods@[j],
                        id@,
                        title@,
                        updated@,
                    ),
                forall|j: int| k <= j < n ==> self.mods@[j] == old(self).mods@[j],
            decreases n - k,
        {
            if crate::parser::str_eq(self.mods[k].id.as_str(), id) {
                let m = WorkshopMod {
                    id: self.mods[k].id.clone(),
                    name: Option::Some(String::from_str(title)),
                    status: clone_opt_string(&self.mods[k].status),
                    last_updated: Option::Some(String::from_str(updated)),
                    local_updated: clone_opt_string(&self.mods[k].local_updated),
                };
                self.mods[k] = m;
            }
            k = k + 1;
        }
    }

    /// Recomputes status and fallback names from the loaded overlay rows
    /// and the chosen column mapping.  A missing snapshot, an unchosen
    /// header or column, or a header row outside the snapshot leaves
    /// every record untouched.  Always recomputed in full, so repeating
    /// it with unchanged data changes nothing further.
    pub fn apply_spreadsheet(&mut self)
        ensures
            final(self).appid == old(self).appid,
            final(self).name == old(self).name,
            final(self).path == old(self).path,
            final(self).spreadsheet == old(self).spreadsheet,
            final(self).sheet_data == old(self).sheet_data,
            match (
                old(self).sheet_data,
                old(self).spreadsheet.header_row_index,
                old(self).spreadsheet.id_col,
                old(self).spreadsheet.status_col,
            ) {
                (
                    Option::Some(rows),
                    Option::Some(header),
                    Option::Some(id_col),
                    Option::Some(status_col),
                ) => if header < rows@.len() {
                    overlay_post(
                        old(self).mods@,
                        final(self).mods@,
                        rows.deep_view(),
                        header as int,
                        id_col as int,
                        status_col as int,
                        old(self).spreadsheet.name_col,
                    )
                } else {
                    final(self).mods@ == old(self).mods@
                },
                _ => final(self).mods@ == old(self).mods@,
            },
    {
        let (header, id_col, status_col) = match (
            self.spreadsheet.header_row_index,
            self.spreadsheet.id_col,
            self.spreadsheet.status_col,
        ) {
            (Option::Some(h), Option::Some(i), Option::Some(s)) => (h, i, s),
            _ => {
                return ;
            },
        };
        let name_col = self.spreadsheet.name_col;
        let rows = match &self.sheet_data {
            Option::Some(rows) => rows,
            Option::None => {
                return ;
            },
        };
        if header >= rows.len() {
            return ;
        }
        let ghost rowsd = rows.deep_view();
        let after = header + 1;
        let n = self.mods.len();
        let mut k: usize = 0;
        while k < n
            invariant
                k <= n,
                n == self.mods@.len(),
                self.mods@.len() == old(self).mods@.len(),
                self.appid == old(self).appid,
                self.name == old(self).name,
                self.path == old(self).path,
                self.spreadsheet == old(self).spreadsheet,
                self.sheet_data == old(self).sheet_data,
                old(self).sheet_data matches Option::Some(r) && r.deep_view() == rowsd && rows@
                    == r@ && header < r@.len(),
                old(self).spreadsheet.header_row_index == Option::Some(header),
                old(self).spreadsheet.id_col == Option::Some(id_col),
                old(self).spreadsheet.status_col == Option::Some(status_col),
                old(self).spreadsheet.name_col == name_col,
                after == header + 1,
                forall|j: int|
                    0 <= j < k ==> overlay_item_ok(
                        old(self).mods@[j],
                        self.mods@[j],
                        rowsd,
                        header as int,
                        id_col as int,
                        status_col as int,
                        name_col,
                    ),
                forall|j: int| k <= j < n ==> self.mods@[j] == old(self).mods@[j],
            decreases n - k,
        {
            let status = match overlay_find(rows, after, id_col, status_col, &self.mods[k].id) {
                Option::Some(s) => Option::Some(s),
                Option::None => clone_opt_string(&self.mods[k].status),
            };
            let name = if self.mods[k].name.is_some() {
                clone_opt_string(&self.mods[k].name)
            } else {
                match name_col {
                    Option::Some(nc) => overlay_find(rows, after, id_col, nc, &self.mods[k].id),
                    Option::None => Option::None,
                }
            };
            let m = WorkshopMod {
                id: self.mods[k].id.clone(),
                name,
                status,
                last_updated: clone_opt_string(&self.mods[k].last_updated),
                local_updated: clone_opt_string(&self.mods[k].local_updated),
            };
            self.mods[k] = m;
            k = k + 1;
        }
    }
}

/// Both configurations carry the same choices and the same texts.
pub open spec fn config_view_eq(a: SpreadsheetConfig, b: SpreadsheetConfig) -> bool {
    &&& a.sheet_url@ == b.sheet_url@
    &&& opt_str_eq(a.sheet_file, b.sheet_file)
    &&& a.header_row_index == b.header_row_index
    &&& a.id_col == b.id_col
    &&& a.status_col == b.status_col
    &&& a.name_col == b.name_col
}

/// A copy of a configuration with the same choices and texts.
fn clone_config(c: &SpreadsheetConfig) -> (r: SpreadsheetConfig)
    ensures
        config_view_eq(r, *c),
{
    SpreadsheetConfig {
        sheet_url: c.sheet_url.clone(),
        sheet_file: clone_opt_string(&c.sheet_file),
        header_row_index: c.header_row_index,
        id_col: c.id_col,
        status_col: c.status_col,
        name_col: c.name_col,
    }
}

/// The containers from `i` on whose overlay configuration differs from
/// the default, each as (container id, configuration), in order.
pub open spec fn spec_non_default_configs(games: Seq<GameEntry>, i: int) -> Seq<
    (Seq<char>, SpreadsheetConfig),
>
    decreases games.len() - i,
{
    if i < 0 || i >= games.len() {
        Seq::empty()
    } else {
        let rest = spec_non_default_configs(games, i + 1);
        if !games[i].spreadsheet.spec_is_default() {
            seq![(games[i].appid@, games[i].spreadsheet)] + rest
        } else {
            rest
        }
    }
}

/// Collects, in order, each container whose overlay configuration was
/// changed from the default, paired with its id — the part of the state
/// worth persisting on exit.
pub fn non_default_configs(games: &Vec<GameEntry>) -> (r: Vec<(String, SpreadsheetConfig)>)
    ensures
        r@.len() == spec_non_default_configs(games@, 0).len(),
        forall|j: int|
            0 <= j < r@.len() ==> {
                &&& (#[trigger] r@[j]).0@ == spec_non_default_configs(games@, 0)[j].0
                &&& config_view_eq(r@[j].1, spec_non_default_configs(games@, 0)[j].1)
            },
{
    let n = games.len();
    let mut r: Vec<(String, SpreadsheetConfig)> = Vec::new();
    let mut k: usize = 0;
    while k < n
        invariant
            k <= n,
            n == games@.len(),
            spec_non_default_configs(games@, 0).len() == r@.len() + spec_non_default_configs(
                games@,
                k as int,
            ).len(),
            forall|j: int|
                0 <= j < r@.len() ==> {
                    &&& (#[trigger] r@[j]).0@ == spec_non_default_configs(games@, 0)[j].0
                    &&& config_view_eq(r@[j].1, spec_non_default_configs(games@, 0)[j].1)
                },
            forall|j: int|
                0 <= j < spec_non_default_configs(games@, k as int).len()
                    ==> #[trigger] spec_non_default_configs(games@, k as int)[j]
                    == spec_non_default_configs(games@, 0)[r@.len() + j],
        decreases n - k,
    {
        let ghost rest0 = spec_non_default_configs(games@, k as int);
        let ghost len0 = r@.len();
        let mut added = false;
        if !games[k].spreadsheet.is_default() {
            r.push((games[k].appid.clone(), clone_config(&games[k].spreadsheet)));
            added = true;
        }
        proof {
            let rest1 = spec_non_default_configs(games@, k + 1);
            let full = spec_non_default_configs(games@, 0);
            if added {
                assert(rest0 =~= seq![rest0[0]] + rest1);
                assert forall|j: int| 0 <= j < rest1.len() implies rest1[j] == full[r@.len() + j] by {
                    assert(rest1[j] == rest0[j + 1]);
                    assert(rest0[j + 1] == full[len0 + (j + 1)]);
                }
            } else {
                assert(rest1 == rest0);
                assert forall|j: int| 0 <= j < rest1.len() implies rest1[j] == full[r@.len() + j] by {
                    assert(rest0[j] == full[len0 + j]);
                }
            }
        }
        k = k + 1;
    }
    proof {
        assert(spec_non_default_configs(games@, n as int).len() == 0);
    }
    r
}

} // verus!
