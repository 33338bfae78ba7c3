//! Extraction of the local inventory from manifest texts: which library
//! folders exist, what a container is called, and which workshop items a
//! container has installed.  Reading the files from disk belongs to the
//! surrounding program; everything here works on the texts alone.

use vstd::prelude::*;

use crate::parser;
use crate::parser::{KeyValue, KvTree};
use crate::text;

verus! {

/// The root object a manifest text parses to.
pub open spec fn spec_root(s: Seq<char>) -> KvTree {
    KvTree::Obj(parser::spec_parse_at(parser::spec_tokenize(s), 0, Seq::empty()).0)
}

/// The keys of an object's entries, in order.
pub open spec fn keys_of(entries: Seq<(Seq<char>, KvTree)>) -> Seq<Seq<char>> {
    Seq::new(
        entries.len(),
        |i: int|
            if 0 <= i < entries.len() {
                entries[i].0
            } else {
                Seq::empty()
            },
    )
}

/// The library folders listed from entry `i` on: each folder with a
/// string `path` and an `apps` object yields its path and the app ids
/// keyed under `apps`; a folder missing either is skipped.
pub open spec fn spec_folders_from(
    folders: Seq<(Seq<char>, KvTree)>,
    i: int,
) -> Seq<(Seq<char>, Seq<Seq<char>>)>
    decreases folders.len() - i,
{
    if i < 0 || i >= folders.len() {
        Seq::empty()
    } else {
        let folder = folders[i].1;
        let rest = spec_folders_from(folders, i + 1);
        match (parser::kv_get(folder, "path"@), parser::kv_get(folder, "apps"@)) {
            (Option::Some(KvTree::Str(p)), Option::Some(KvTree::Obj(apps))) => seq![
                (p, keys_of(apps)),
            ] + rest,
            _ => rest,
        }
    }
}

/// What the library listing text yields: the folders under the
/// `libraryfolders` object, or nothing when that object is missing.
pub open spec fn spec_library_listing(s: Seq<char>) -> Seq<(Seq<char>, Seq<Seq<char>>)> {
    match parser::kv_get(spec_root(s), "libraryfolders"@) {
        Option::Some(KvTree::Obj(folders)) => spec_folders_from(folders, 0),
        _ => Seq::empty(),
    }
}

/// Copies the keys of an object's entries.
fn collect_keys(entries: &Vec<(String, KeyValue)>) -> (r: Vec<String>)
    ensures
        r.deep_view() == keys_of(parser::entries_deep(entries@)),
{
    let n = entries.len();
    let mut r: Vec<String> = Vec::new();
    let mut k: usize = 0;
    while k < n
        invariant
            k <= n,
            n == entries@.len(),
            r@.len() == k,
            forall|j: int| 0 <= j < k ==> r@[j]@ == entries@[j].0@,
        decreases n - k,
    {
        r.push(entries[k].0.clone());
        k = k + 1;
    }
    proof {
        assert(r.deep_view() =~= keys_of(parser::entries_deep(entries@)));
    }
    r
}

/// Reads the library listing: one entry per library folder that names a
/// path and an `apps` object, in listing order, each carrying the folder
/// path and the container ids installed there.
pub fn parse_library_listing(text: &str) -> (r: Vec<(String, Vec<String>)>)
    ensures
        r@.len() == spec_library_listing(text@).len(),
        forall|i: int|
            0 <= i < r@.len() ==> {
                &&& (#[trigger] r@[i]).0@ == spec_library_listing(text@)[i].0
                &&& r@[i].1.deep_view() == spec_library_listing(text@)[i].1
            },
{
    let root = parser::parse_vdf(text);
    let mut r: Vec<(String, Vec<String>)> = Vec::new();
    let folders_kv = match root.get("libraryfolders") {
        Option::Some(f) => f,
        Option::None => {
            return r;
        },
    };
    let folders = match folders_kv.obj_entries() {
        Option::Some(es) => es,
        Option::None => {
            return r;
        },
    };
    let ghost folders_deep = parser::entries_deep(folders@);
    let ghost listing = spec_library_listing(text@);
    proof {
        assert(listing == spec_folders_from(folders_deep, 0));
    }
    let n = folders.len();
    let mut k: usize = 0;
    while k < n
        invariant
            k <= n,
            n == folders@.len(),
            folders_deep == parser::entries_deep(folders@),
            listing == spec_folders_from(folders_deep, 0),
            spec_folders_from(folders_deep, 0).len() == r@.len() + spec_folders_from(
                folders_deep,
                k as int,
            ).len(),
            forall|i: int|
                0 <= i < r@.len() ==> {
                    &&& (#[trigger] r@[i]).0@ == spec_folders_from(folders_deep, 0)[i].0
                    &&& r@[i].1.deep_view() == spec_folders_from(folders_deep, 0)[i].1
                },
            forall|i: int|
                0 <= i < spec_folders_from(folders_deep, k as int).len() ==> #[trigger] spec_folders_from(
                    folders_deep,
                    k as int,
                )[i] == spec_folders_from(folders_deep, 0)[r@.len() + i],
        decreases n - k,
    {
        let ghost rest0 = spec_folders_from(folders_deep, k as int);
        let ghost len0 = r@.len();
        let folder = &folders[k].1;
        let mut added = false;
        match folder.get("path") {
            Option::Some(path_kv) => match path_kv.as_str() {
                Option::Some(p) => match folder.get("apps") {
                    Option::Some(apps_kv) => match apps_kv.obj_entries() {
                        Option::Some(apps) => {
                            let ids = collect_keys(apps);
                            r.push((p.clone(), ids));
                            added = true;
                        },
                        Option::None => {},
                    },
                    Option::None => {},
                },
                Option::None => {},
            },
            Option::None => {},
        }
        proof {
            assert(folders_deep[k as int].1 == folders@[k as int].1.deep());
            let rest1 = spec_folders_from(folders_deep, k + 1);
            let full = spec_folders_from(folders_deep, 0);
            if added {
                assert(rest0 =~= seq![rest0[0]] + rest1);
                assert forall|i: int| 0 <= i < rest1.len() implies rest1[i] == full[r@.len() + i] by {
                    assert(rest1[i] == rest0[i + 1]);
                    assert(rest0[i + 1] == full[len0 + (i + 1)]);
                }
            } else {
                assert(rest1 == rest0);
                assert forall|i: int| 0 <= i < rest1.len() implies rest1[i] == full[r@.len() + i] by {
                    assert(rest0[i] == full[len0 + i]);
                }
            }
        }
        k = k + 1;
    }
    proof {
        assert(spec_folders_from(folders_deep, n as int).len() == 0);
    }
    r
}

/// The display name a container manifest yields: the string under
/// `AppState` / `name`, or the `<unknown>` placeholder when the manifest
/// does not provide one.
pub open spec fn spec_game_name(s: Seq<char>) -> Seq<char> {
    match parser::kv_get(spec_root(s), "AppState"@) {
        Option::Some(appstate) => match parser::kv_get(appstate, "name"@) {
            Option::Some(KvTree::Str(n)) => n,
            _ => "<unknown>"@,
        },
        _ => "<unknown>"@,
    }
}

/// Reads a container's display name from its manifest text, falling back
/// to a literal placeholder when the text does not provide one.
pub fn game_name_from_manifest(text: &str) -> (r: String)
    ensures
        r@ == spec_game_name(text@),
{
    let root = parser::parse_vdf(text);
    match root.get("AppState") {
        Option::Some(appstate) => match appstate.get("name") {
            Option::Some(name_kv) => match name_kv.as_str() {
                Option::Some(n) => n.clone(),
                Option::None => String::from_str("<unknown>"),
            },
            Option::None => String::from_str("<unknown>"),
        },
        Option::None => String::from_str("<unknown>"),
    }
}

/// The installed items listed from entry `i` on: each entry whose value
/// is an object with a `timeupdated` string that reads as an unsigned
/// integer yields (item id, timestamp); every other entry is skipped.
pub open spec fn spec_items_from(
    items: Seq<(Seq<char>, KvTree)>,
    i: int,
) -> Seq<(Seq<char>, u64)>
    decreases items.len() - i,
{
    if i < 0 || i >= items.len() {
        Seq::empty()
    } else {
        let rest = spec_items_from(items, i + 1);
        match items[i].1 {
            KvTree::Obj(_) => match parser::kv_get(items[i].1, "timeupdated"@) {
                Option::Some(KvTree::Str(t)) => match text::spec_parse_u64(t) {
                    Option::Some(v) => seq![(items[i].0, v)] + rest,
                    Option::None => rest,
                },
                _ => rest,
            },
            _ => rest,
        }
    }
}

/// What the workshop manifest text yields: the entries of the object
/// under `AppWorkshop` / `WorkshopItemsInstalled`, filtered to those with
/// an integer `timeupdated`.
pub open spec fn spec_workshop_items(s: Seq<char>) -> Seq<(Seq<char>, u64)> {
    match parser::kv_get(spec_root(s), "AppWorkshop"@) {
        Option::Some(workshop) => match parser::kv_get(workshop, "WorkshopItemsInstalled"@) {
            Option::Some(KvTree::Obj(items)) => spec_items_from(items, 0),
            _ => Seq::empty(),
        },
        _ => Seq::empty(),
    }
}

/// Reads the installed items of a container from its workshop manifest
/// text: item id and local update timestamp, in manifest order; items
/// without an integer-readable timestamp are left out.
pub fn parse_workshop_items(text: &str) -> (r: Vec<(String, u64)>)
    ensures
        r@.len() == spec_workshop_items(text@).len(),
        forall|i: int|
            0 <= i < r@.len() ==> {
                &&& (#[trigger] r@[i]).0@ == spec_workshop_items(text@)[i].0
                &&& r@[i].1 == spec_workshop_items(text@)[i].1
            },
{
    let root = parser::parse_vdf(text);
    let mut r: Vec<(String, u64)> = Vec::new();
    let workshop = match root.get("AppWorkshop") {
        Option::Some(w) => w,
        Option::None => {
            return r;
        },
    };
    let items_kv = match workshop.get("WorkshopItemsInstalled") {
        Option::Some(x) => x,
        Option::None => {
            return r;
        },
    };
    let items = match items_kv.obj_entries() {
        Option::Some(es) => es,
        Option::None => {
            return r;
        },
    };
    let ghost items_deep = parser::entries_deep(items@);
    let ghost listing = spec_workshop_items(text@);
    proof {
        assert(listing == spec_items_from(items_deep, 0));
    }
    let n = items.len();
    let mut k: usize = 0;
    while k < n
        invariant
            k <= n,
            n == items@.len(),
            items_deep == parser::entries_deep(items@),
            listing == spec_items_from(items_deep, 0),
            spec_items_from(items_deep, 0).len() == r@.len() + spec_items_from(
                items_deep,
                k as int,
            ).len(),
            forall|i: int|
                0 <= i < r@.len() ==> {
                    &&& (#[trigger] r@[i]).0@ == spec_items_from(items_deep, 0)[i].0
                    &&& r@[i].1 == spec_items_from(items_deep, 0)[i].1
                },
            forall|i: int|
                0 <= i < spec_items_from(items_deep, k as int).len() ==> #[trigger] spec_items_from(
                    items_deep,
                    k as int,
                )[i] == spec_items_from(items_deep, 0)[r@.len() + i],
        decreases n - k,
    {
        let ghost rest0 = spec_items_from(items_deep, k as int);
        let ghost len0 = r@.len();
        let entry = &items[k].1;
        let mut added = false;
        match entry.get("timeupdated") {
            Option::Some(t_kv) => match t_kv.as_str() {
                Option::Some(t) => match text::parse_u64(t.as_str()) {
                    Option::Some(v) => {
                        r.push((items[k].0.clone(), v));
                        added = true;
                    },
                    Option::None => {},
                },
                Option::None => {},
            },
            Option::None => {},
        }
        proof {
            assert(items_deep[k as int].1 == items@[k as int].1.deep());
            let rest1 = spec_items_from(items_deep, k + 1);
            let full = spec_items_from(items_deep, 0);
            if added {
                assert(rest0 =~= seq![rest0[0]] + rest1);
                assert forall|i: int| 0 <= i < rest1.len() implies rest1[i] == full[r@.len() + i] by {
                    assert(rest1[i] == rest0[i + 1]);
                    assert(rest0[i + 1] == full[len0 + (i + 1)]);
                }
            } else {
                assert(rest1 == rest0);
                assert forall|i: int| 0 <= i < rest1.len() implies rest1[i] == full[r@.len() + i] by {
                    assert(rest0[i] == full[len0 + i]);
                }
            }
        }
        k = k + 1;
    }
    proof {
        assert(spec_items_from(items_deep, n as int).len() == 0);
    }
    r
}

} // verus!
