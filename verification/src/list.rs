//! The table of recorded sites.
use crate::number;
use crate::order;
use crate::store;
use crate::text;
use crate::tree;
use crate::tree::DirItem;
use vstd::prelude::*;

verus! {

/// A recorded site: how many snapshots and how many files of resources it has.
#[derive(Debug)]
pub struct Row {
    pub site: String,
    pub api_count: usize,
    pub asset_count: usize,
}

impl order::Ranked for Row {
    open spec fn le(self, other: Self) -> bool {
        self.api_count > other.api_count || (self.api_count == other.api_count && order::text_le(
            self.site@,
            other.site@,
        ))
    }

    fn may_precede(&self, other: &Self) -> (r: bool) {
        self.api_count > other.api_count || (self.api_count == other.api_count
            && order::string_no_later(&self.site, &other.site))
    }

    proof fn total(a: Self, b: Self) {
        order::lemma_text_le_total(a.site@, b.site@);
    }

    proof fn transitive(a: Self, b: Self, c: Self) {
        if a.api_count == b.api_count && b.api_count == c.api_count {
            order::lemma_text_le_transitive(a.site@, b.site@, c.site@);
        }
    }
}

/// The number of snapshots of all sites.
pub open spec fn api_total(rows: Seq<Row>) -> nat
    decreases rows.len(),
{
    if rows.len() == 0 {
        0
    } else {
        api_total(rows.drop_last()) + rows.last().api_count as nat
    }
}

/// The number of files of resources of all sites.
pub open spec fn asset_total(rows: Seq<Row>) -> nat
    decreases rows.len(),
{
    if rows.len() == 0 {
        0
    } else {
        asset_total(rows.drop_last()) + rows.last().asset_count as nat
    }
}

/// A line of the table: the first column to the left, the others to the right.
pub open spec fn table_line(a: Seq<char>, b: Seq<char>, c: Seq<char>) -> Seq<char> {
    number::padded_right(a, 26, ' ') + " "@ + number::padded(b, 7, ' ') + " "@ + number::padded(
        c,
        8,
        ' ',
    )
}

/// The line of a site.
pub open spec fn row_line(row: Row) -> Seq<char> {
    table_line(
        row.site@,
        number::decimal(row.api_count as nat),
        number::decimal(row.asset_count as nat),
    )
}

/// The table: a heading, the sites, and the totals. The sites with the most snapshots come
/// first, and in the order of their names where they have as many.
pub open spec fn table_lines(rows: Seq<Row>) -> Seq<Seq<char>> {
    let sorted = order::sorted(rows);
    seq![table_line("站点"@, "接口"@, "资源"@)] + sorted.map_values(|row: Row| row_line(row))
        + seq![
        table_line(
            "合计"@,
            number::decimal(api_total(sorted)),
            number::decimal(asset_total(sorted)),
        ),
    ]
}

/// Writes a line of the table.
fn write_line(a: &[char], b: &[char], c: &[char]) -> (r: String)
    ensures
        r@ == table_line(a@, b@, c@),
{
    let mut out = number::pad_right(a, 26, ' ');
    text::push_str(&mut out, " ");
    text::push_all(&mut out, &number::pad(b, 7, ' '));
    text::push_str(&mut out, " ");
    text::push_all(&mut out, &number::pad(c, 8, ' '));
    text::string_of(&out)
}

/// The totals of some sites are no larger than those of all.
proof fn lemma_totals_grow(rows: Seq<Row>, i: int)
    requires
        0 <= i <= rows.len(),
    ensures
        api_total(rows.take(i)) <= api_total(rows),
        asset_total(rows.take(i)) <= asset_total(rows),
    decreases rows.len() - i,
{
    if i < rows.len() {
        lemma_totals_grow(rows, i + 1);
        assert(rows.take(i + 1).drop_last() =~= rows.take(i));
    } else {
        assert(rows.take(i) =~= rows);
    }
}

/// The totals with one more site at some place.
proof fn lemma_totals_insert(rows: Seq<Row>, p: int, x: Row)
    requires
        0 <= p <= rows.len(),
    ensures
        api_total(rows.insert(p, x)) == api_total(rows) + x.api_count,
        asset_total(rows.insert(p, x)) == asset_total(rows) + x.asset_count,
    decreases rows.len(),
{
    let r = rows.insert(p, x);
    if p == rows.len() {
        assert(r.drop_last() =~= rows);
    } else {
        lemma_totals_insert(rows.drop_last(), p, x);
        assert(r.drop_last() =~= rows.drop_last().insert(p, x));
        assert(r.last() == rows.last());
    }
}

/// Sorting changes no total.
pub proof fn law_sorting_keeps_totals(rows: Seq<Row>)
    ensures
        api_total(order::sorted(rows)) == api_total(rows),
        asset_total(order::sorted(rows)) == asset_total(rows),
    decreases rows.len(),
{
    if rows.len() > 0 {
        let front = rows.drop_last();
        let s = order::sorted(front);
        law_sorting_keeps_totals(front);
        order::lemma_place(s, rows.last());
        lemma_totals_insert(s, order::place(s, rows.last()), rows.last());
    }
}

/// The sites stand with the most snapshots first.
pub proof fn law_busiest_sites_come_first(rows: Seq<Row>, i: int, j: int)
    requires
        0 <= i <= j < rows.len(),
    ensures
        order::sorted(rows)[i].api_count >= order::sorted(rows)[j].api_count,
{
    order::lemma_sorted(rows);
    let s = order::sorted(rows);
    assert(order::Ranked::le(s[i], s[j]));
}

/// How many of the first `n` items of a directory are files of snapshots.
pub open spec fn snapshot_count(items: Seq<DirItem>, n: nat) -> nat
    decreases n,
{
    if n == 0 || n > items.len() {
        0
    } else {
        snapshot_count(items, (n - 1) as nat) + if items[n - 1] is File
            && store::is_snapshot_name(tree::item_name(items[n - 1])) {
            1nat
        } else {
            0nat
        }
    }
}

/// Counts the files of snapshots in a directory, not in those below it.
pub fn count_json_files(items: &[DirItem]) -> (r: usize)
    ensures
        r == snapshot_count(items@, items@.len()),
{
    let n: usize = items.len();
    let mut count: usize = 0;
    let mut i: usize = 0;
    while i < n
        invariant
            i <= n == items@.len(),
            count <= i,
            count == snapshot_count(items@, i as nat),
        decreases n - i,
    {
        assert((i + 1) as nat - 1 == i);
        if let DirItem::File(name) = &items[i] {
            if store::is_snapshot_file(name) {
                count = count + 1;
            }
        }
        i += 1;
    }
    count
}

/// How many files of resources a site has, by the items of the directory of resources: those
/// below the directory with its name.
pub open spec fn asset_count(resources: Seq<DirItem>, site: Seq<char>) -> usize {
    let i = tree::dir_position(resources, site);
    if 0 <= i < resources.len() {
        tree::capped(tree::files_in(resources[i]))
    } else {
        0
    }
}

/// Counts the files of resources of a site.
pub fn site_asset_count(resources: &[DirItem], site: &str) -> (r: usize)
    ensures
        r == asset_count(resources@, site@),
{
    match tree::find_dir(resources, site) {
        Some(i) => tree::count_files(&resources[i]),
        None => 0,
    }
}

/// The sites among the first `n` items of the directory of snapshots: its directories.
pub open spec fn sites(snapshots: Seq<DirItem>, resources: Seq<DirItem>, n: nat) -> Seq<
    (Seq<char>, usize, usize),
>
    decreases n,
{
    if n == 0 || n > snapshots.len() {
        seq![]
    } else {
        let front = sites(snapshots, resources, (n - 1) as nat);
        match snapshots[n - 1] {
            DirItem::Dir(name, items) => front.push(
                (
                    name@,
                    snapshot_count(items@, items@.len()) as usize,
                    asset_count(resources, name@),
                ),
            ),
            DirItem::File(_) => front,
        }
    }
}

/// The model of rows.
pub open spec fn row_views(rows: Seq<Row>) -> Seq<(Seq<char>, usize, usize)> {
    rows.map_values(|r: Row| (r.site@, r.api_count, r.asset_count))
}

/// Lists the sites of a data directory, by the items of its directories of snapshots and of
/// resources.
pub fn list_sites(snapshots: &[DirItem], resources: &[DirItem]) -> (r: Vec<Row>)
    ensures
        row_views(r@) == sites(snapshots@, resources@, snapshots@.len()),
{
    let n: usize = snapshots.len();
    let mut out: Vec<Row> = Vec::new();
    let mut i: usize = 0;
    assert(row_views(out@) =~= Seq::<(Seq<char>, usize, usize)>::empty());
    while i < n
        invariant
            i <= n == snapshots@.len(),
            row_views(out@) == sites(snapshots@, resources@, i as nat),
        decreases n - i,
    {
        assert((i + 1) as nat - 1 == i);
        if let DirItem::Dir(name, items) = &snapshots[i] {
            let row = Row {
                site: name.clone(),
                api_count: count_json_files(items),
                asset_count: site_asset_count(resources, name),
            };
            let ghost before = out@;
            out.push(row);
            assert(row_views(out@) =~= row_views(before).push(
                (row.site@, row.api_count, row.asset_count),
            ));
        }
        i += 1;
    }
    out
}

/// Whether the totals can be counted.
pub fn totals_fit(rows: &[Row]) -> (r: bool)
    ensures
        r == (api_total(rows@) <= usize::MAX && asset_total(rows@) <= usize::MAX),
{
    let n: usize = rows.len();
    let mut api: usize = 0;
    let mut asset: usize = 0;
    let mut i: usize = 0;
    assert(rows@.take(0) =~= Seq::<Row>::empty());
    while i < n
        invariant
            i <= n == rows@.len(),
            api == api_total(rows@.take(i as int)),
            asset == asset_total(rows@.take(i as int)),
        decreases n - i,
    {
        proof {
            assert(rows@.take(i + 1).drop_last() =~= rows@.take(i as int));
            lemma_totals_grow(rows@, i + 1);
        }
        if rows[i].api_count > usize::MAX - api || rows[i].asset_count > usize::MAX - asset {
            return false;
        }
        api = api + rows[i].api_count;
        asset = asset + rows[i].asset_count;
        i += 1;
    }
    assert(rows@.take(n as int) =~= rows@);
    true
}

/// Writes the table of recorded sites.
pub fn table(rows: Vec<Row>) -> (r: Vec<String>)
    requires
        api_total(rows@) <= usize::MAX,
        asset_total(rows@) <= usize::MAX,
    ensures
        text::texts(r@) == table_lines(rows@),
{
    proof {
        law_sorting_keeps_totals(rows@);
    }
    let sorted = order::sort(rows);
    let ghost lines = sorted@.map_values(|row: Row| row_line(row));
    let head = write_line(
        &text::chars_of("站点"),
        &text::chars_of("接口"),
        &text::chars_of("资源"),
    );
    let ghost heading = seq![head@];
    let n: usize = sorted.len();
    let mut out: Vec<String> = Vec::new();
    out.push(head);
    let mut api: usize = 0;
    let mut asset: usize = 0;
    let mut i: usize = 0;
    assert(sorted@.take(0) =~= Seq::<Row>::empty());
    assert(text::texts(out@) =~= heading + lines.take(0));
    while i < n
        invariant
            i <= n == sorted@.len(),
            lines == sorted@.map_values(|row: Row| row_line(row)),
            api_total(sorted@) <= usize::MAX,
            asset_total(sorted@) <= usize::MAX,
            api == api_total(sorted@.take(i as int)),
            asset == asset_total(sorted@.take(i as int)),
            text::texts(out@) == heading + lines.take(i as int),
        decreases n - i,
    {
        proof {
            assert(sorted@.take(i + 1).drop_last() =~= sorted@.take(i as int));
            lemma_totals_grow(sorted@, i + 1);
        }
        let row = &sorted[i];
        let line = write_line(
            &text::chars_of(&row.site),
            &number::to_decimal(row.api_count as u64),
            &number::to_decimal(row.asset_count as u64),
        );
        proof {
            text::lemma_texts_push(out@, line);
            assert(lines.take(i + 1) =~= lines.take(i as int).push(line@));
            assert((heading + lines.take(i as int)).push(line@) =~= heading + lines.take(i + 1));
        }
        out.push(line);
        api = api + row.api_count;
        asset = asset + row.asset_count;
        i += 1;
    }
    assert(sorted@.take(n as int) =~= sorted@);
    assert(lines.take(n as int) =~= lines);
    let last = write_line(
        &text::chars_of("合计"),
        &number::to_decimal(api as u64),
        &number::to_decimal(asset as u64),
    );
    proof {
        text::lemma_texts_push(out@, last);
        assert((heading + lines).push(last@) =~= heading + lines + seq![last@]);
    }
    out.push(last);
    out
}

/// The message for a data directory without snapshots.
pub open spec fn nothing_recorded(dir: Seq<char>) -> Seq<char> {
    "数据目录 "@ + dir + " 下没有 snapshots/，请先运行 tape record"@
}

/// Writes the message for a data directory without snapshots.
pub fn nothing_recorded_message(dir: &str) -> (r: String)
    ensures
        r@ == nothing_recorded(dir@),
{
    let mut out = text::chars_of("数据目录 ");
    text::push_str(&mut out, dir);
    text::push_str(&mut out, " 下没有 snapshots/，请先运行 tape record");
    text::string_of(&out)
}

/// The table has a heading, a line for every site with its name and its two counts, and a line
/// with the totals of both; the columns are filled up with spaces.
pub proof fn law_table(rows: Seq<Row>, i: int)
    ensures
        ({
            let lines = table_lines(rows);
            let sorted = order::sorted(rows);
            let n = sorted.len();
            &&& lines.len() == n + 2
            &&& lines[0] == table_line("站点"@, "接口"@, "资源"@)
            &&& 0 <= i < n ==> lines[i + 1] == table_line(
                sorted[i].site@,
                number::decimal(sorted[i].api_count as nat),
                number::decimal(sorted[i].asset_count as nat),
            )
            &&& lines.last() == table_line(
                "合计"@,
                number::decimal(api_total(rows)),
                number::decimal(asset_total(rows)),
            )
        }),
{
    law_sorting_keeps_totals(rows);
}

/// A line of the table has its first column to the left of 26 characters, and the others to the
/// right of seven and eight.
pub proof fn law_table_line(
    a: Seq<char>,
    b: Seq<char>,
    c: Seq<char>,
    x: Seq<char>,
    y: Seq<char>,
    z: Seq<char>,
)
    requires
        a.len() + x.len() == 26,
        b.len() + y.len() == 7,
        c.len() + z.len() == 8,
        forall|i: int| 0 <= i < x.len() ==> #[trigger] x[i] == ' ',
        forall|i: int| 0 <= i < y.len() ==> #[trigger] y[i] == ' ',
        forall|i: int| 0 <= i < z.len() ==> #[trigger] z[i] == ' ',
    ensures
        table_line(a, b, c) == (a + x) + " "@ + (y + b) + " "@ + (z + c),
{
    number::law_padded(a, 26, ' ', x);
    number::law_padded(b, 7, ' ', y);
    number::law_padded(c, 8, ' ', z);
}

/// The totals grow by what each site has.
pub proof fn law_totals(rows: Seq<Row>, row: Row)
    ensures
        api_total(seq![]) == 0,
        asset_total(seq![]) == 0,
        api_total(rows.push(row)) == api_total(rows) + row.api_count,
        asset_total(rows.push(row)) == asset_total(rows) + row.asset_count,
{
    assert(rows.push(row).drop_last() =~= rows);
}

/// The snapshots of a site are the files with the name of one that lie in its directory itself.
pub proof fn law_snapshots_are_counted(items: Seq<DirItem>, n: nat)
    requires
        n <= items.len(),
    ensures
        snapshot_count(items, n) == items.take(n as int).filter(
            |d: DirItem| d matches DirItem::File(name) && store::is_snapshot_name(name@),
        ).len(),
    decreases n,
{
    reveal(Seq::filter);
    if n > 0 {
        law_snapshots_are_counted(items, (n - 1) as nat);
        assert(items.take(n as int).drop_last() =~= items.take(n - 1));
    }
}

/// Every directory of snapshots is a site, in order, with the files of its snapshots and those of
/// the resources in the directory with its name; a file is none.
pub proof fn law_sites(
    snapshots: Seq<DirItem>,
    resources: Seq<DirItem>,
    n: nat,
)
    requires
        n < snapshots.len(),
    ensures
        sites(snapshots, resources, 0).len() == 0,
        snapshots[n as int] is File ==> sites(snapshots, resources, n + 1) == sites(
            snapshots,
            resources,
            n,
        ),
        snapshots[n as int] matches DirItem::Dir(name, items) ==> sites(
            snapshots,
            resources,
            n + 1,
        ) == sites(snapshots, resources, n).push(
            (
                name@,
                snapshot_count(items@, items@.len()) as usize,
                asset_count(resources, name@),
            ),
        ),
{
}

/// The files of a site's resources are all those below the first directory with its name; without
/// one there are none.
pub proof fn law_assets_are_counted(resources: Seq<DirItem>, site: Seq<char>, i: int)
    requires
        0 <= i <= resources.len(),
        i < resources.len() ==> (resources[i] matches DirItem::Dir(n, _) && n@ == site),
        forall|j: int|
            0 <= j < i ==> !(#[trigger] resources[j] matches DirItem::Dir(n, _) && n@ == site),
    ensures
        i < resources.len() && tree::files_in(resources[i]) <= usize::MAX ==> asset_count(
            resources,
            site,
        ) == tree::files_in(resources[i]),
        i == resources.len() ==> asset_count(resources, site) == 0,
{
    tree::law_first_directory_is_found(resources, site, i);
}

/// The message where nothing was recorded names the data directory.
pub proof fn law_nothing_recorded(dir: Seq<char>)
    ensures
        nothing_recorded(dir) == "数据目录 "@ + dir + " 下没有 snapshots/，请先运行 tape record"@,
{
}

} // verus!
