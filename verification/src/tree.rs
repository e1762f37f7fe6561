//! What lies in a directory, as it was read.
use crate::paths;
use crate::store;
use crate::text;
use vstd::prelude::*;

verus! {

/// An item of a directory.
#[derive(Debug)]
pub enum DirItem {
    /// A file with its name.
    File(String),
    /// A directory with its name and its items.
    Dir(String, Vec<DirItem>),
}

/// How many files an item is or holds, at any depth.
pub open spec fn files_in(item: DirItem) -> nat
    decreases item, 0int,
{
    match item {
        DirItem::File(_) => 1,
        DirItem::Dir(_, items) => files_among(items@, items@.len()),
    }
}

/// How many files there are among the first `n` items, at any depth.
pub open spec fn files_among(items: Seq<DirItem>, n: nat) -> nat
    decreases items, n,
{
    if n == 0 || n > items.len() {
        0
    } else {
        files_among(items, (n - 1) as nat) + files_in(items[n - 1])
    }
}

/// A number as a `usize`; the largest where it is larger.
pub open spec fn capped(n: nat) -> usize {
    if n <= usize::MAX {
        n as usize
    } else {
        usize::MAX
    }
}

/// The sum of two numbers, as far as it can be counted.
fn add_capped(a: usize, b: usize) -> (r: usize)
    ensures
        r == capped(a as nat + b as nat),
{
    if a > usize::MAX - b {
        usize::MAX
    } else {
        a + b
    }
}

/// Counts the files that an item is or holds.
pub fn count_files(item: &DirItem) -> (r: usize)
    ensures
        r == capped(files_in(*item)),
    decreases item,
{
    match item {
        DirItem::File(_) => 1,
        DirItem::Dir(_, items) => {
            let n: usize = items.len();
            let mut total: usize = 0;
            let mut i: usize = 0;
            while i < n
                invariant
                    i <= n == items@.len(),
                    *item == DirItem::Dir(item->Dir_0, *items),
                    total == capped(files_among(items@, i as nat)),
                decreases n - i,
            {
                proof {
                    assert(decreases_to!(*item => item->Dir_1));
                    assert(decreases_to!(*items => items@));
                    assert(decreases_to!(items@ => items@[i as int]));
                    assert((i + 1) as nat - 1 == i);
                }
                total = add_capped(total, count_files(&items[i]));
                i += 1;
            }
            total
        },
    }
}

/// The name of an item.
pub open spec fn item_name(item: DirItem) -> Seq<char> {
    match item {
        DirItem::File(name) => name@,
        DirItem::Dir(name, _) => name@,
    }
}

/// Where the first directory with a name stands; behind the last item, where there is none.
pub open spec fn dir_position(items: Seq<DirItem>, name: Seq<char>) -> int
    decreases items.len(),
{
    if items.len() == 0 || (items[0] is Dir && item_name(items[0]) == name) {
        0
    } else {
        1 + dir_position(items.drop_first(), name)
    }
}

/// Finds the first directory with a name.
pub fn find_dir(items: &[DirItem], name: &str) -> (r: Option<usize>)
    ensures
        match r {
            Some(i) => i < items@.len() && i == dir_position(items@, name@),
            None => dir_position(items@, name@) == items@.len(),
        },
{
    let n: usize = items.len();
    let mut i: usize = 0;
    assert(items@.skip(0) =~= items@);
    while i < n
        invariant
            i <= n == items@.len(),
            dir_position(items@, name@) == i + dir_position(items@.skip(i as int), name@),
        decreases n - i,
    {
        assert(items@.skip(i as int)[0] == items@[i as int]);
        if let DirItem::Dir(own, _) = &items[i] {
            if text::same(own, name) {
                return Some(i);
            }
        }
        assert(items@.skip(i as int).drop_first() =~= items@.skip(i + 1));
        i += 1;
    }
    None
}

/// The files of snapshots that an item below a path is or holds, at any depth.
pub open spec fn snapshots_in(item: DirItem, prefix: Seq<char>) -> Seq<Seq<char>>
    decreases item, 0int,
{
    match item {
        DirItem::File(name) => if store::is_snapshot_name(name@) {
            seq![paths::joined(prefix, name@)]
        } else {
            seq![]
        },
        DirItem::Dir(name, items) => snapshots_among(
            items@,
            items@.len(),
            paths::joined(prefix, name@),
        ),
    }
}

/// The files of snapshots among the first `n` items below a path, at any depth.
pub open spec fn snapshots_among(items: Seq<DirItem>, n: nat, prefix: Seq<char>) -> Seq<Seq<char>>
    decreases items, n,
{
    if n == 0 || n > items.len() {
        seq![]
    } else {
        snapshots_among(items, (n - 1) as nat, prefix) + snapshots_in(items[n - 1], prefix)
    }
}

/// Lists the files of snapshots that an item below a path is or holds.
pub fn collect_json_files(item: &DirItem, prefix: &str) -> (r: Vec<String>)
    ensures
        text::texts(r@) == snapshots_in(*item, prefix@),
    decreases item,
{
    let mut out: Vec<String> = Vec::new();
    assert(text::texts(out@) =~= Seq::<Seq<char>>::empty());
    match item {
        DirItem::File(name) => {
            if store::is_snapshot_file(name) {
                let path = paths::join(prefix, name);
                proof {
                    text::lemma_texts_push(out@, path);
                    assert(text::texts(out@).push(path@) =~= seq![path@]);
                }
                out.push(path);
            }
        },
        DirItem::Dir(name, items) => {
            let path = paths::join(prefix, name);
            let n: usize = items.len();
            let mut i: usize = 0;
            while i < n
                invariant
                    i <= n == items@.len(),
                    *item == DirItem::Dir(*name, *items),
                    path@ == paths::joined(prefix@, name@),
                    text::texts(out@) == snapshots_among(items@, i as nat, path@),
                decreases n - i,
            {
                proof {
                    assert(decreases_to!(*item => item->Dir_1));
                    assert(decreases_to!(*items => items@));
                    assert(decreases_to!(items@ => items@[i as int]));
                    assert((i + 1) as nat - 1 == i);
                }
                let mut more = collect_json_files(&items[i], &path);
                let ghost (a, b) = (out@, more@);
                out.append(&mut more);
                assert(text::texts(a + b) =~= text::texts(a) + text::texts(b));
                i += 1;
            }
        },
    }
    out
}

/// A file counts once, and a directory for all that its items hold, at any depth.
pub proof fn law_files_are_counted(name: String, items: Vec<DirItem>, n: nat)
    requires
        n < items@.len(),
    ensures
        files_in(DirItem::File(name)) == 1,
        files_in(DirItem::Dir(name, items)) == files_among(items@, items@.len()),
        files_among(items@, 0) == 0,
        files_among(items@, n + 1) == files_among(items@, n) + files_in(items@[n as int]),
{
}

/// The files of snapshots are listed with their paths, in order: a file by its own name, and those
/// in a directory below the directory's.
pub proof fn law_snapshot_files_are_listed(
    name: String,
    items: Vec<DirItem>,
    n: nat,
    prefix: Seq<char>,
)
    requires
        n < items@.len(),
    ensures
        store::is_snapshot_name(name@) ==> snapshots_in(DirItem::File(name), prefix) == seq![
            paths::joined(prefix, name@),
        ],
        !store::is_snapshot_name(name@) ==> snapshots_in(DirItem::File(name), prefix).len() == 0,
        snapshots_in(DirItem::Dir(name, items), prefix) == snapshots_among(
            items@,
            items@.len(),
            paths::joined(prefix, name@),
        ),
        snapshots_among(items@, 0, prefix).len() == 0,
        snapshots_among(items@, n + 1, prefix) == snapshots_among(items@, n, prefix) + snapshots_in(
            items@[n as int],
            prefix,
        ),
{
}

/// The first directory with a name is found, and a file with the name is none.
pub proof fn law_first_directory_is_found(items: Seq<DirItem>, name: Seq<char>, i: int)
    requires
        0 <= i <= items.len(),
        i < items.len() ==> (items[i] matches DirItem::Dir(n, _) && n@ == name),
        forall|j: int|
            0 <= j < i ==> !(#[trigger] items[j] matches DirItem::Dir(n, _) && n@ == name),
    ensures
        dir_position(items, name) == i,
    decreases items.len(),
{
    if i > 0 {
        assert(!(items[0] matches DirItem::Dir(n, _) && n@ == name));
        let rest = items.drop_first();
        assert forall|j: int| 0 <= j < i - 1 implies !(#[trigger] rest[j] matches DirItem::Dir(n, _)
            && n@ == name) by {
            assert(rest[j] == items[j + 1]);
        }
        law_first_directory_is_found(rest, name, i - 1);
    }
}

} // verus!
