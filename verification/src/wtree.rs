//! The walker: the recursive traversal core, sibling ordering, and the
//! running tally.  The walker works on an in-memory snapshot of a subtree
//! and produces one row per rendered entry; listing the live filesystem
//! into such a snapshot, and printing the rows, happen outside the
//! library.

use vstd::prelude::*;
use vstd::std_specs::vec::spec_vec_len;
use crate::envir::Setting;
use crate::strutil::{concat_segs, dec_digits, spec_parse_i32};
use crate::utils::{
    branch_glyph, pad_glyph, spec_filter, spec_render_name, Entry, Prefix, PrefixMode,
};

verus! {

/// Running tally of rendered entries: one count for directories, one for
/// files.  It is mutated once per surviving entry and read once at the end
/// of a render.
pub struct Counter {
    pub file_count: u32,
    pub dir_count: u32,
}

/// The summary line: the two counts in words, on a line of their own after
/// an empty line.
pub open spec fn spec_report_line(dirs: nat, files: nat) -> Seq<char> {
    "\n"@ + dec_digits(dirs) + " directories, "@ + dec_digits(files) + " files"@
}

impl Counter {
    pub fn new() -> (c: Counter)
        ensures
            c.dir_count == 0,
            c.file_count == 0,
    {
        Counter { file_count: 0, dir_count: 0 }
    }

    /// Tally one rendered entry: a directory bumps the directory count,
    /// anything else the file count.
    pub fn increase_counter(&mut self, is_dir: bool)
        requires
            is_dir ==> old(self).dir_count < u32::MAX,
            !is_dir ==> old(self).file_count < u32::MAX,
        ensures
            is_dir ==> final(self).dir_count == old(self).dir_count + 1 && final(self).file_count
                == old(self).file_count,
            !is_dir ==> final(self).file_count == old(self).file_count + 1 && final(self).dir_count
                == old(self).dir_count,
    {
        if is_dir {
            self.dir_count = self.dir_count + 1;
        } else {
            self.file_count = self.file_count + 1;
        }
    }

    /// Read-only snapshot `(directories, files)` of the tally.
    pub fn summary(&self) -> (r: (u32, u32))
        ensures
            r.0 == self.dir_count,
            r.1 == self.file_count,
    {
        (self.dir_count, self.file_count)
    }

    /// The summary line, owed exactly when reporting is on.
    pub fn print_counter(&self, setting: &Setting) -> (r: Option<String>)
        ensures
            setting.is_needing_report ==> (r matches Some(t) && t@ == spec_report_line(
                self.dir_count as nat,
                self.file_count as nat,
            )),
            !setting.is_needing_report ==> r is None,
    {
        if setting.is_needing_report {
            let mut line = String::from_str("\n");
            line.append(crate::strutil::u64_to_string(self.dir_count as u64).as_str());
            line.append(" directories, ");
            line.append(crate::strutil::u64_to_string(self.file_count as u64).as_str());
            line.append(" files");
            Some(line)
        } else {
            None
        }
    }
}

/// What is known of a directory's children in the snapshot: the listing
/// failed (permission denied, an input/output error), or it succeeded with
/// these nodes.
pub enum Children {
    Unreadable,
    Listed(Vec<DirTree>),
}

/// One node of the snapshot: its entry, and its children where it is a
/// directory that could be listed.
pub struct DirTree {
    pub entry: Entry,
    pub children: Children,
}

/// One rendered row: the connectors drawn before the name, the rendered
/// name, the raw display name, the node's path, and whether the node is a
/// directory.
pub struct Row {
    pub prefix: String,
    pub name: String,
    pub entry_name: String,
    pub path: String,
    pub is_dir: bool,
}

/// The mathematical value of a row.
#[verifier::ext_equal]
pub ghost struct RowModel {
    pub prefix: Seq<char>,
    pub name: Seq<char>,
    pub entry_name: Seq<char>,
    pub path: Seq<char>,
    pub is_dir: bool,
}

/// The mathematical value of one row.
pub open spec fn row_model(r: Row) -> RowModel {
    RowModel {
        prefix: r.prefix@,
        name: r.name@,
        entry_name: r.entry_name@,
        path: r.path@,
        is_dir: r.is_dir,
    }
}

/// The mathematical values of a sequence of rows.
pub open spec fn rows_view(s: Seq<Row>) -> Seq<RowModel> {
    s.map_values(|r: Row| row_model(r))
}

/// The row a node contributes, drawn behind the given connector segments;
/// under no-indentation, nothing is drawn before the name.
pub open spec fn spec_row(e: Entry, ctx: Seq<Seq<char>>, s: Setting) -> RowModel {
    RowModel {
        prefix: if s.is_no_indentation {
            Seq::empty()
        } else {
            concat_segs(ctx)
        },
        name: spec_render_name(e, s),
        entry_name: e.entry_name@,
        path: e.path@,
        is_dir: e.is_dir,
    }
}

/// The height of a node: one more than the height of its tallest child.
pub open spec fn tree_height(t: DirTree) -> nat
    decreases t,
{
    match t.children {
        Children::Unreadable => 1,
        Children::Listed(cs) => 1 + forest_height(cs@),
    }
}

/// The height of the tallest node of a forest.
pub open spec fn forest_height(s: Seq<DirTree>) -> nat
    decreases s,
{
    if s.len() == 0 {
        0
    } else {
        let h0 = tree_height(s[0]);
        let hr = forest_height(s.drop_first());
        if h0 > hr {
            h0
        } else {
            hr
        }
    }
}

pub proof fn lemma_tree_height_le_forest(s: Seq<DirTree>, i: int)
    requires
        0 <= i < s.len(),
    ensures
        tree_height(s[i]) <= forest_height(s),
    decreases s.len(),
{
    if i > 0 {
        lemma_tree_height_le_forest(s.drop_first(), i - 1);
        assert(s.drop_first()[i - 1] == s[i]);
    }
}

/// The ordering key of one sort pass.
pub enum SortKey {
    DirFirst,
    Name,
    MTime,
}

/// The ordering key of a character: letters are ranked by their lowercase
/// form, with the lowercase letter just before its uppercase form, so that
/// names sort case-insensitively with lowercase first on ties.
pub open spec fn char_key(c: char) -> int {
    if 'A' <= c && c <= 'Z' {
        2 * (c as int + 32) + 1
    } else {
        2 * (c as int)
    }
}

/// Strict name order: character by character on keys, a proper prefix
/// before its extensions.
pub open spec fn name_lt(x: Seq<char>, y: Seq<char>) -> bool
    decreases x.len(),
{
    if y.len() == 0 {
        false
    } else if x.len() == 0 {
        true
    } else if char_key(x[0]) < char_key(y[0]) {
        true
    } else if char_key(x[0]) > char_key(y[0]) {
        false
    } else {
        name_lt(x.drop_first(), y.drop_first())
    }
}

/// Strict order of one pass over two entries: directories before files;
/// names in name order; modification times ascending, an unreadable time
/// after every readable one.
pub open spec fn key_lt(k: SortKey, a: Entry, b: Entry) -> bool {
    match k {
        SortKey::DirFirst => a.is_dir && !b.is_dir,
        SortKey::Name => name_lt(a.entry_name@, b.entry_name@),
        SortKey::MTime => match (a.mtime, b.mtime) {
            (Some(x), Some(y)) => x < y,
            (Some(x), None) => true,
            (None, _) => false,
        },
    }
}

/// Inserts index `x` into an ordered index sequence, before the first
/// index whose entry is strictly greater: an entry that ties keeps its
/// place before the newcomer, which keeps every pass stable.
pub open spec fn spec_insert(k: SortKey, cs: Seq<DirTree>, x: usize, sorted: Seq<usize>) -> Seq<
    usize,
>
    decreases sorted.len(),
{
    if sorted.len() == 0 {
        seq![x]
    } else if key_lt(k, cs[x as int].entry, cs[sorted[0] as int].entry) {
        seq![x] + sorted
    } else {
        seq![sorted[0]] + spec_insert(k, cs, x, sorted.drop_first())
    }
}

/// One stable sort pass over an index sequence: each index in turn is
/// inserted behind its equals.
pub open spec fn spec_sort_pass(k: SortKey, cs: Seq<DirTree>, ids: Seq<usize>) -> Seq<usize>
    decreases ids.len(),
{
    if ids.len() == 0 {
        Seq::empty()
    } else {
        spec_insert(k, cs, ids.last(), spec_sort_pass(k, cs, ids.drop_last()))
    }
}

/// The indices of the children that survive the filter, in listing order,
/// among the first `n`.
pub open spec fn spec_filtered(cs: Seq<DirTree>, n: int, s: Setting) -> Seq<usize>
    decreases n,
{
    if n <= 0 {
        Seq::empty()
    } else if spec_filter(cs[n - 1].entry, s) {
        spec_filtered(cs, n - 1, s).push((n - 1) as usize)
    } else {
        spec_filtered(cs, n - 1, s)
    }
}

/// The final sibling order: the filtered indices, run through the
/// configured passes in turn — directories first, then names, then
/// modification times, each pass stable so later passes dominate only
/// where they order strictly — and reversed at the end when asked;
/// unsorted skips every pass.
pub open spec fn spec_order(cs: Seq<DirTree>, s: Setting) -> Seq<usize> {
    let f = spec_filtered(cs, cs.len() as int, s);
    if s.is_unsort {
        f
    } else {
        let a = if s.is_dir_first {
            spec_sort_pass(SortKey::DirFirst, cs, f)
        } else {
            f
        };
        let b = if s.is_sort_alphanumerically {
            spec_sort_pass(SortKey::Name, cs, a)
        } else {
            a
        };
        let c = if s.is_sort_mod_time {
            spec_sort_pass(SortKey::MTime, cs, b)
        } else {
            b
        };
        if s.is_sort_reverse {
            c.reverse()
        } else {
            c
        }
    }
}

/// Strict name order, character by character.
fn name_lt_exec(a: &str, b: &str) -> (r: bool)
    ensures
        r == name_lt(a@, b@),
{
    let alen = a.unicode_len();
    let blen = b.unicode_len();
    let mut i: usize = 0;
    proof {
        assert(a@.skip(0) =~= a@);
        assert(b@.skip(0) =~= b@);
    }
    loop
        invariant
            i <= alen,
            i <= blen,
            alen == a@.len(),
            blen == b@.len(),
            name_lt(a@, b@) == name_lt(a@.skip(i as int), b@.skip(i as int)),
        decreases alen - i,
    {
        if i == blen {
            return false;
        }
        if i == alen {
            return true;
        }
        let ca = a.get_char(i);
        let cb = b.get_char(i);
        let ka: u64 = if 'A' <= ca && ca <= 'Z' {
            2 * (ca as u32 as u64 + 32) + 1
        } else {
            2 * (ca as u32 as u64)
        };
        let kb: u64 = if 'A' <= cb && cb <= 'Z' {
            2 * (cb as u32 as u64 + 32) + 1
        } else {
            2 * (cb as u32 as u64)
        };
        proof {
            assert(a@.skip(i as int)[0] == ca);
            assert(b@.skip(i as int)[0] == cb);
            assert(ka as int == char_key(ca));
            assert(kb as int == char_key(cb));
        }
        if ka < kb {
            return true;
        }
        if ka > kb {
            return false;
        }
        proof {
            assert(a@.skip(i as int).drop_first() =~= a@.skip(i + 1));
            assert(b@.skip(i as int).drop_first() =~= b@.skip(i + 1));
        }
        i = i + 1;
    }
}

/// Strict order of one pass over two entries.
fn key_lt_exec(k: &SortKey, a: &Entry, b: &Entry) -> (r: bool)
    ensures
        r == key_lt(*k, *a, *b),
{
    match k {
        SortKey::DirFirst => a.is_dir && !b.is_dir,
        SortKey::Name => name_lt_exec(a.entry_name.as_str(), b.entry_name.as_str()),
        SortKey::MTime => match (&a.mtime, &b.mtime) {
            (Some(x), Some(y)) => *x < *y,
            (Some(_), None) => true,
            (None, _) => false,
        },
    }
}

proof fn lemma_insert_at(k: SortKey, cs: Seq<DirTree>, x: usize, sorted: Seq<usize>, j: int)
    requires
        0 <= j <= sorted.len(),
        forall|m: int| 0 <= m < j ==> !key_lt(k, cs[x as int].entry, cs[#[trigger] sorted[m] as int].entry),
        j < sorted.len() ==> key_lt(k, cs[x as int].entry, cs[sorted[j] as int].entry),
    ensures
        spec_insert(k, cs, x, sorted) == sorted.take(j) + seq![x] + sorted.skip(j),
    decreases sorted.len(),
{
    if sorted.len() == 0 {
        assert(spec_insert(k, cs, x, sorted) =~= sorted.take(j) + seq![x] + sorted.skip(j));
    } else if key_lt(k, cs[x as int].entry, cs[sorted[0] as int].entry) {
        assert(j == 0);
        assert(spec_insert(k, cs, x, sorted) =~= sorted.take(0) + seq![x] + sorted.skip(0));
    } else {
        assert(j >= 1);
        let rest = sorted.drop_first();
        assert forall|m: int| 0 <= m < j - 1 implies !key_lt(
            k,
            cs[x as int].entry,
            cs[#[trigger] rest[m] as int].entry,
        ) by {
            assert(rest[m] == sorted[m + 1]);
        }
        if j - 1 < rest.len() {
            assert(rest[j - 1] == sorted[j]);
        }
        lemma_insert_at(k, cs, x, rest, j - 1);
        assert(spec_insert(k, cs, x, sorted) =~= sorted.take(j) + seq![x] + sorted.skip(j)) by {
            assert(rest.take(j - 1) =~= sorted.subrange(1, j));
            assert(rest.skip(j - 1) =~= sorted.skip(j));
        }
    }
}

/// Inserts one index into an ordered index vector, behind its equals.
fn insert_sorted(k: &SortKey, cs: &Vec<DirTree>, x: usize, sorted: Vec<usize>) -> (r: Vec<usize>)
    requires
        x < cs@.len(),
        forall|m: int| 0 <= m < sorted@.len() ==> #[trigger] sorted@[m] < cs@.len(),
    ensures
        r@ == spec_insert(*k, cs@, x, sorted@),
        forall|m: int| 0 <= m < r@.len() ==> #[trigger] r@[m] < cs@.len(),
{
    let mut v = sorted;
    let mut j: usize = 0;
    while j < v.len() && !key_lt_exec(k, &cs[x].entry, &cs[v[j]].entry)
        invariant
            j <= v@.len(),
            x < cs@.len(),
            forall|m: int| 0 <= m < v@.len() ==> #[trigger] v@[m] < cs@.len(),
            forall|m: int|
                0 <= m < j ==> !key_lt(*k, cs@[x as int].entry, cs@[#[trigger] v@[m] as int].entry),
        decreases v@.len() - j,
    {
        j = j + 1;
    }
    proof {
        lemma_insert_at(*k, cs@, x, v@, j as int);
    }
    let ghost before = v@;
    v.insert(j, x);
    proof {
        assert(v@ =~= before.take(j as int) + seq![x] + before.skip(j as int));
    }
    v
}

/// One stable sort pass over an index vector.
fn sort_pass(k: &SortKey, cs: &Vec<DirTree>, ids: Vec<usize>) -> (r: Vec<usize>)
    requires
        forall|m: int| 0 <= m < ids@.len() ==> #[trigger] ids@[m] < cs@.len(),
    ensures
        r@ == spec_sort_pass(*k, cs@, ids@),
        forall|m: int| 0 <= m < r@.len() ==> #[trigger] r@[m] < cs@.len(),
{
    let mut r: Vec<usize> = Vec::new();
    let mut i: usize = 0;
    proof {
        assert(ids@.take(0) =~= Seq::<usize>::empty());
    }
    while i < ids.len()
        invariant
            i <= ids@.len(),
            forall|m: int| 0 <= m < ids@.len() ==> #[trigger] ids@[m] < cs@.len(),
            r@ == spec_sort_pass(*k, cs@, ids@.take(i as int)),
            forall|m: int| 0 <= m < r@.len() ==> #[trigger] r@[m] < cs@.len(),
        decreases ids@.len() - i,
    {
        r = insert_sorted(k, cs, ids[i], r);
        proof {
            assert(ids@.take(i + 1).drop_last() =~= ids@.take(i as int));
            assert(ids@.take(i + 1).last() == ids@[i as int]);
        }
        i = i + 1;
    }
    proof {
        assert(ids@.take(ids@.len() as int) =~= ids@);
    }
    r
}

/// Reverses an index vector.
fn reverse_ids(ids: Vec<usize>) -> (r: Vec<usize>)
    ensures
        r@ == ids@.reverse(),
{
    let n = ids.len();
    let mut r: Vec<usize> = Vec::new();
    let mut i: usize = 0;
    while i < n
        invariant
            i <= n,
            n == ids@.len(),
            r@.len() == i,
            forall|m: int| 0 <= m < i ==> #[trigger] r@[m] == ids@[n - 1 - m],
        decreases n - i,
    {
        r.push(ids[n - 1 - i]);
        i = i + 1;
    }
    proof {
        assert(r@ =~= ids@.reverse());
    }
    r
}

/// The indices of the children that survive the filter, in listing order.
fn filtered_ids(cs: &Vec<DirTree>, setting: &Setting) -> (r: Vec<usize>)
    ensures
        r@ == spec_filtered(cs@, cs@.len() as int, *setting),
        forall|m: int| 0 <= m < r@.len() ==> #[trigger] r@[m] < cs@.len(),
{
    let mut r: Vec<usize> = Vec::new();
    let mut n: usize = 0;
    proof {
        assert(r@ =~= spec_filtered(cs@, 0, *setting));
    }
    while n < cs.len()
        invariant
            n <= cs@.len(),
            r@ == spec_filtered(cs@, n as int, *setting),
            forall|m: int| 0 <= m < r@.len() ==> #[trigger] r@[m] < cs@.len(),
        decreases cs@.len() - n,
    {
        if Entry::filter(&cs[n].entry, setting) {
            r.push(n);
        }
        n = n + 1;
    }
    r
}

/// The final sibling order of a child list under a configuration.
pub fn ordered_indices(cs: &Vec<DirTree>, setting: &Setting) -> (r: Vec<usize>)
    ensures
        r@ == spec_order(cs@, *setting),
        forall|m: int| 0 <= m < r@.len() ==> #[trigger] r@[m] < cs@.len(),
{
    let f = filtered_ids(cs, setting);
    if setting.is_unsort {
        return f;
    }
    let a = if setting.is_dir_first {
        sort_pass(&SortKey::DirFirst, cs, f)
    } else {
        f
    };
    let b = if setting.is_sort_alphanumerically {
        sort_pass(&SortKey::Name, cs, a)
    } else {
        a
    };
    let c = if setting.is_sort_mod_time {
        sort_pass(&SortKey::MTime, cs, b)
    } else {
        b
    };
    if setting.is_sort_reverse {
        let ghost before = c@;
        let rr = reverse_ids(c);
        proof {
            assert forall|m: int| 0 <= m < rr@.len() implies #[trigger] rr@[m] < cs@.len() by {
                assert(rr@[m] == before[before.len() - 1 - m]);
            }
        }
        rr
    } else {
        c
    }
}

/// The depth budget handed to a child: a negative budget means unlimited
/// and stays as it is, any other budget loses one level.
pub open spec fn dec_budget(b: int) -> int {
    if b < 0 {
        b
    } else {
        b - 1
    }
}

/// The rows a directory's subtree contributes, below the given connector
/// segments, with the given depth budget: none when the budget is spent,
/// the node is no directory, or its children could not be listed; else the
/// rows of its ordered children.
pub open spec fn spec_subdir_rows(node: DirTree, ctx: Seq<Seq<char>>, budget: int, s: Setting) -> Seq<RowModel>
    decreases tree_height(node), 0int, 0int,
{
    if budget == 0 || !node.entry.is_dir {
        Seq::empty()
    } else {
        match node.children {
            Children::Unreadable => Seq::empty(),
            Children::Listed(cs) => spec_rows_from(cs@, spec_order(cs@, s), 0, ctx, budget, s),
        }
    }
}

/// The rows the ordered children from position `k` on contribute: for each
/// child its own row, drawn behind the parent's segments and a branch
/// glyph (the end branch for the last sibling), then, for a directory, the
/// rows of its subtree behind a continuation pad.
pub open spec fn spec_rows_from(
    cs: Seq<DirTree>,
    ord: Seq<usize>,
    k: int,
    ctx: Seq<Seq<char>>,
    budget: int,
    s: Setting,
) -> Seq<RowModel>
    decreases forest_height(cs), 1int, ord.len() - k,
{
    if !(0 <= k < ord.len()) {
        Seq::empty()
    } else if !(ord[k] < cs.len()) {
        Seq::empty()
    } else {
        let child = cs[ord[k] as int];
        let is_last = k == ord.len() - 1;
        let row_ctx = if s.is_no_indentation {
            ctx
        } else {
            ctx.push(branch_glyph(is_last))
        };
        let sub_ctx = if s.is_no_indentation {
            ctx
        } else {
            ctx.push(pad_glyph(is_last))
        };
        let row = spec_row(child.entry, row_ctx, s);
        let sub = if child.entry.is_dir {
            proof {
                lemma_tree_height_le_forest(cs, ord[k] as int);
            }
            spec_subdir_rows(child, sub_ctx, dec_budget(budget), s)
        } else {
            Seq::empty()
        };
        seq![row] + sub + spec_rows_from(cs, ord, k + 1, ctx, budget, s)
    }
}

/// The full render: the root's own row, then its subtree.
pub open spec fn spec_render(root: DirTree, budget: int, s: Setting) -> Seq<RowModel> {
    seq![spec_row(root.entry, Seq::empty(), s)] + spec_subdir_rows(root, Seq::empty(), budget, s)
}

/// How many of the rows are directory rows.
pub open spec fn count_dirs(rows: Seq<RowModel>) -> nat
    decreases rows.len(),
{
    if rows.len() == 0 {
        0
    } else {
        count_dirs(rows.drop_last()) + (if rows.last().is_dir {
            1nat
        } else {
            0nat
        })
    }
}

/// How many of the rows are file rows.
pub open spec fn count_files(rows: Seq<RowModel>) -> nat
    decreases rows.len(),
{
    if rows.len() == 0 {
        0
    } else {
        count_files(rows.drop_last()) + (if rows.last().is_dir {
            0nat
        } else {
            1nat
        })
    }
}

proof fn lemma_count_single(r: RowModel)
    ensures
        count_dirs(seq![r]) == (if r.is_dir {
            1nat
        } else {
            0nat
        }),
        count_files(seq![r]) == (if r.is_dir {
            0nat
        } else {
            1nat
        }),
{
    assert(seq![r].drop_last() =~= Seq::<RowModel>::empty());
    assert(seq![r].last() == r);
    assert(count_dirs(Seq::<RowModel>::empty()) == 0);
    assert(count_files(Seq::<RowModel>::empty()) == 0);
}

proof fn lemma_counts_add(a: Seq<RowModel>, b: Seq<RowModel>)
    ensures
        count_dirs(a + b) == count_dirs(a) + count_dirs(b),
        count_files(a + b) == count_files(a) + count_files(b),
    decreases b.len(),
{
    if b.len() == 0 {
        assert(a + b =~= a);
    } else {
        lemma_counts_add(a, b.drop_last());
        assert((a + b).drop_last() =~= a + b.drop_last());
        assert((a + b).last() == b.last());
    }
}

/// An unreadable directory renders no descendant rows: the subtree is
/// skipped, and the render of everything else goes on unharmed.
pub proof fn lemma_unreadable_renders_nothing(node: DirTree, ctx: Seq<Seq<char>>, budget: int, s: Setting)
    requires
        node.children is Unreadable,
    ensures
        spec_subdir_rows(node, ctx, budget, s) == Seq::<RowModel>::empty(),
{
}

proof fn lemma_insert_from(k: SortKey, cs: Seq<DirTree>, x: usize, sorted: Seq<usize>, j: int)
    requires
        0 <= j < spec_insert(k, cs, x, sorted).len(),
    ensures
        spec_insert(k, cs, x, sorted)[j] == x || sorted.contains(spec_insert(k, cs, x, sorted)[j]),
    decreases sorted.len(),
{
    let r = spec_insert(k, cs, x, sorted);
    if sorted.len() == 0 {
    } else if key_lt(k, cs[x as int].entry, cs[sorted[0] as int].entry) {
        if j >= 1 {
            assert(r[j] == sorted[j - 1]);
        }
    } else {
        if j == 0 {
            assert(sorted.contains(sorted[0]));
        } else {
            lemma_insert_from(k, cs, x, sorted.drop_first(), j - 1);
            let rest = sorted.drop_first();
            if rest.contains(r[j]) {
                let w = choose|w: int| 0 <= w < rest.len() && rest[w] == r[j];
                assert(sorted[w + 1] == r[j]);
            }
        }
    }
}

proof fn lemma_sort_pass_from(k: SortKey, cs: Seq<DirTree>, ids: Seq<usize>, j: int)
    requires
        0 <= j < spec_sort_pass(k, cs, ids).len(),
    ensures
        ids.contains(spec_sort_pass(k, cs, ids)[j]),
    decreases ids.len(),
{
    let r = spec_sort_pass(k, cs, ids);
    if ids.len() > 0 {
        let prev = spec_sort_pass(k, cs, ids.drop_last());
        lemma_insert_from(k, cs, ids.last(), prev, j);
        if r[j] == ids.last() {
            assert(ids[ids.len() - 1] == r[j]);
        } else {
            let w = choose|w: int| 0 <= w < prev.len() && prev[w] == r[j];
            lemma_sort_pass_from(k, cs, ids.drop_last(), w);
            let v = choose|v: int| 0 <= v < ids.drop_last().len() && ids.drop_last()[v] == r[j];
            assert(ids[v] == r[j]);
        }
    }
}

proof fn lemma_filtered_element(cs: Seq<DirTree>, n: int, s: Setting, j: int)
    requires
        0 <= j < spec_filtered(cs, n, s).len(),
        n <= cs.len(),
        cs.len() <= usize::MAX,
    ensures
        spec_filtered(cs, n, s)[j] < cs.len(),
        spec_filter(cs[spec_filtered(cs, n, s)[j] as int].entry, s),
    decreases n,
{
    if n > 0 {
        let prev = spec_filtered(cs, n - 1, s);
        if spec_filter(cs[n - 1].entry, s) {
            if j < prev.len() {
                lemma_filtered_element(cs, n - 1, s, j);
                assert(spec_filtered(cs, n, s)[j] == prev[j]);
            } else {
                assert(spec_filtered(cs, n, s)[j] == (n - 1) as usize);
            }
        } else {
            lemma_filtered_element(cs, n - 1, s, j);
        }
    }
}

/// Every position of the final sibling order points into the child list,
/// at a child that survives the filter: nothing filtered away is ever
/// rendered, and nothing out of range is touched.
pub proof fn lemma_order_filtered(cs: Seq<DirTree>, s: Setting, j: int)
    requires
        0 <= j < spec_order(cs, s).len(),
        cs.len() <= usize::MAX,
    ensures
        spec_order(cs, s)[j] < cs.len(),
        spec_filter(cs[spec_order(cs, s)[j] as int].entry, s),
{
    let f = spec_filtered(cs, cs.len() as int, s);
    let x = spec_order(cs, s)[j];
    assert forall|w: int| 0 <= w < f.len() implies f[w] < cs.len() && spec_filter(
        cs[#[trigger] f[w] as int].entry,
        s,
    ) by {
        lemma_filtered_element(cs, cs.len() as int, s, w);
    }
    if s.is_unsort {
    } else {
        let a = if s.is_dir_first {
            spec_sort_pass(SortKey::DirFirst, cs, f)
        } else {
            f
        };
        let b = if s.is_sort_alphanumerically {
            spec_sort_pass(SortKey::Name, cs, a)
        } else {
            a
        };
        let c = if s.is_sort_mod_time {
            spec_sort_pass(SortKey::MTime, cs, b)
        } else {
            b
        };
        assert forall|w: int| 0 <= w < a.len() implies f.contains(#[trigger] a[w]) by {
            if s.is_dir_first {
                lemma_sort_pass_from(SortKey::DirFirst, cs, f, w);
            } else {
                assert(f[w] == a[w]);
            }
        }
        assert forall|w: int| 0 <= w < b.len() implies f.contains(#[trigger] b[w]) by {
            if s.is_sort_alphanumerically {
                lemma_sort_pass_from(SortKey::Name, cs, a, w);
                let v = choose|v: int| 0 <= v < a.len() && a[v] == b[w];
                assert(f.contains(a[v]));
            } else {
                assert(b[w] == a[w]);
            }
        }
        assert forall|w: int| 0 <= w < c.len() implies f.contains(#[trigger] c[w]) by {
            if s.is_sort_mod_time {
                lemma_sort_pass_from(SortKey::MTime, cs, b, w);
                let v = choose|v: int| 0 <= v < b.len() && b[v] == c[w];
                assert(f.contains(b[v]));
            } else {
                assert(c[w] == b[w]);
            }
        }
        if s.is_sort_reverse {
            assert(c.reverse()[j] == c[c.len() - 1 - j]);
            assert(f.contains(x));
        } else {
            assert(f.contains(x));
        }
        let w = choose|w: int| 0 <= w < f.len() && f[w] == x;
        assert(f[w] < cs.len() && spec_filter(cs[f[w] as int].entry, s));
    }
}

proof fn lemma_insert_multiset(k: SortKey, cs: Seq<DirTree>, x: usize, sorted: Seq<usize>)
    ensures
        spec_insert(k, cs, x, sorted).to_multiset() == sorted.to_multiset().insert(x),
    decreases sorted.len(),
{
    broadcast use vstd::seq_lib::group_to_multiset_ensures;
    broadcast use vstd::seq_lib::lemma_multiset_commutative;
    broadcast use vstd::multiset::group_multiset_axioms;

    if sorted.len() == 0 {
        assert(seq![x] =~= Seq::<usize>::empty().push(x));
        assert(spec_insert(k, cs, x, sorted).to_multiset() =~= sorted.to_multiset().insert(x));
    } else if key_lt(k, cs[x as int].entry, cs[sorted[0] as int].entry) {
        assert(seq![x] =~= Seq::<usize>::empty().push(x));
        assert(spec_insert(k, cs, x, sorted).to_multiset() =~= sorted.to_multiset().insert(x));
    } else {
        let rest = sorted.drop_first();
        lemma_insert_multiset(k, cs, x, rest);
        assert(sorted =~= seq![sorted[0]] + rest);
        assert(seq![sorted[0]] =~= Seq::<usize>::empty().push(sorted[0]));
        assert(spec_insert(k, cs, x, sorted).to_multiset() =~= sorted.to_multiset().insert(x));
    }
}

proof fn lemma_sort_pass_multiset(k: SortKey, cs: Seq<DirTree>, ids: Seq<usize>)
    ensures
        spec_sort_pass(k, cs, ids).to_multiset() == ids.to_multiset(),
    decreases ids.len(),
{
    broadcast use vstd::seq_lib::group_to_multiset_ensures;

    if ids.len() == 0 {
        assert(ids =~= Seq::<usize>::empty());
        assert(spec_sort_pass(k, cs, ids).to_multiset() =~= ids.to_multiset());
    } else {
        let prev = spec_sort_pass(k, cs, ids.drop_last());
        lemma_sort_pass_multiset(k, cs, ids.drop_last());
        lemma_insert_multiset(k, cs, ids.last(), prev);
        assert(ids =~= ids.drop_last().push(ids.last()));
        assert(spec_sort_pass(k, cs, ids).to_multiset() =~= ids.to_multiset());
    }
}

/// The final sibling order is a permutation of the filtered indices: the
/// sort passes and the reversal lose no surviving child and invent none.
pub proof fn lemma_order_permutes(cs: Seq<DirTree>, s: Setting)
    ensures
        spec_order(cs, s).to_multiset() == spec_filtered(cs, cs.len() as int, s).to_multiset(),
{
    let f = spec_filtered(cs, cs.len() as int, s);
    if !s.is_unsort {
        let a = if s.is_dir_first {
            spec_sort_pass(SortKey::DirFirst, cs, f)
        } else {
            f
        };
        let b = if s.is_sort_alphanumerically {
            spec_sort_pass(SortKey::Name, cs, a)
        } else {
            a
        };
        let c = if s.is_sort_mod_time {
            spec_sort_pass(SortKey::MTime, cs, b)
        } else {
            b
        };
        if s.is_dir_first {
            lemma_sort_pass_multiset(SortKey::DirFirst, cs, f);
        }
        if s.is_sort_alphanumerically {
            lemma_sort_pass_multiset(SortKey::Name, cs, a);
        }
        if s.is_sort_mod_time {
            lemma_sort_pass_multiset(SortKey::MTime, cs, b);
        }
        if s.is_sort_reverse {
            c.lemma_reverse_to_multiset();
        }
    }
}

proof fn lemma_filter_keeps_all(cs: Seq<DirTree>, n: int, s: Setting)
    requires
        s.is_all,
        !s.is_dir_only,
        !s.pattern_p,
        !s.pattern_i,
        0 <= n <= cs.len(),
        cs.len() <= usize::MAX,
        forall|i: int| 0 <= i < cs.len() ==> !(#[trigger] cs[i]).entry.is_empty,
    ensures
        spec_filtered(cs, n, s) == Seq::new(n as nat, |i: int| i as usize),
    decreases n,
{
    if n > 0 {
        lemma_filter_keeps_all(cs, n - 1, s);
        assert(spec_filter(cs[n - 1].entry, s));
        assert(spec_filtered(cs, n, s) =~= Seq::new(n as nat, |i: int| i as usize));
    } else {
        assert(spec_filtered(cs, n, s) =~= Seq::new(0, |i: int| i as usize));
    }
}

proof fn lemma_each_position_has_row(
    cs: Seq<DirTree>,
    ord: Seq<usize>,
    k: int,
    ctx: Seq<Seq<char>>,
    budget: int,
    s: Setting,
    j: int,
)
    requires
        0 <= k <= j < ord.len(),
        ord == spec_order(cs, s),
        cs.len() <= usize::MAX,
    ensures
        exists|t: int|
            0 <= t < spec_rows_from(cs, ord, k, ctx, budget, s).len() && #[trigger] spec_rows_from(
                cs,
                ord,
                k,
                ctx,
                budget,
                s,
            )[t].entry_name == cs[ord[j] as int].entry.entry_name@ && spec_rows_from(
                cs,
                ord,
                k,
                ctx,
                budget,
                s,
            )[t].path == cs[ord[j] as int].entry.path@,
    decreases ord.len() - k,
{
    lemma_order_filtered(cs, s, k);
    let child = cs[ord[k] as int];
    let is_last = k == ord.len() - 1;
    let row_ctx = if s.is_no_indentation {
        ctx
    } else {
        ctx.push(branch_glyph(is_last))
    };
    let sub_ctx = if s.is_no_indentation {
        ctx
    } else {
        ctx.push(pad_glyph(is_last))
    };
    let rowm = spec_row(child.entry, row_ctx, s);
    let sub = if child.entry.is_dir {
        spec_subdir_rows(child, sub_ctx, dec_budget(budget), s)
    } else {
        Seq::<RowModel>::empty()
    };
    let tail = spec_rows_from(cs, ord, k + 1, ctx, budget, s);
    let rest = spec_rows_from(cs, ord, k, ctx, budget, s);
    assert(rest == seq![rowm] + sub + tail);
    if j == k {
        assert(rest[0] == rowm);
        assert(rest[0].entry_name == cs[ord[j] as int].entry.entry_name@);
        assert(rest[0].path == cs[ord[j] as int].entry.path@);
    } else {
        lemma_each_position_has_row(cs, ord, k + 1, ctx, budget, s, j);
        let t = choose|t: int|
            0 <= t < spec_rows_from(cs, ord, k + 1, ctx, budget, s).len() && #[trigger] spec_rows_from(
                cs,
                ord,
                k + 1,
                ctx,
                budget,
                s,
            )[t].entry_name == cs[ord[j] as int].entry.entry_name@ && spec_rows_from(
                cs,
                ord,
                k + 1,
                ctx,
                budget,
                s,
            )[t].path == cs[ord[j] as int].entry.path@;
        assert(rest[1 + sub.len() + t] == tail[t]);
        assert(rest[1 + sub.len() + t].entry_name == cs[ord[j] as int].entry.entry_name@);
        assert(rest[1 + sub.len() + t].path == cs[ord[j] as int].entry.path@);
    }
}

/// With show-hidden on, and no directory-only or pattern filter, every
/// direct child that is no placeholder is rendered: some row carries its
/// display name and its path.
pub proof fn lemma_show_all_lists_every_child(
    node: DirTree,
    cs: Vec<DirTree>,
    ctx: Seq<Seq<char>>,
    budget: int,
    s: Setting,
    i: int,
)
    requires
        s.is_all,
        !s.is_dir_only,
        !s.pattern_p,
        !s.pattern_i,
        budget != 0,
        node.entry.is_dir,
        node.children == Children::Listed(cs),
        forall|m: int| 0 <= m < cs@.len() ==> !(#[trigger] cs@[m]).entry.is_empty,
        0 <= i < cs@.len(),
    ensures
        exists|t: int|
            0 <= t < spec_subdir_rows(node, ctx, budget, s).len() && #[trigger] spec_subdir_rows(
                node,
                ctx,
                budget,
                s,
            )[t].entry_name == cs@[i].entry.entry_name@ && spec_subdir_rows(
                node,
                ctx,
                budget,
                s,
            )[t].path == cs@[i].entry.path@,
{
    broadcast use vstd::std_specs::vec::axiom_spec_len;
    broadcast use vstd::seq_lib::group_to_multiset_ensures;

    assert(spec_vec_len(&cs) == cs@.len());
    let f = spec_filtered(cs@, cs@.len() as int, s);
    let ord = spec_order(cs@, s);
    lemma_filter_keeps_all(cs@, cs@.len() as int, s);
    lemma_order_permutes(cs@, s);
    assert(f[i] == i as usize);
    assert(f.contains(i as usize));
    assert(f.to_multiset().count(i as usize) > 0);
    assert(ord.to_multiset().count(i as usize) > 0);
    assert(ord.contains(i as usize));
    let j = choose|j: int| 0 <= j < ord.len() && ord[j] == i as usize;
    lemma_each_position_has_row(cs@, ord, 0, ctx, budget, s, j);
    assert(spec_subdir_rows(node, ctx, budget, s) == spec_rows_from(cs@, ord, 0, ctx, budget, s));
    let t = choose|t: int|
        0 <= t < spec_rows_from(cs@, ord, 0, ctx, budget, s).len() && #[trigger] spec_rows_from(
            cs@,
            ord,
            0,
            ctx,
            budget,
            s,
        )[t].entry_name == cs@[ord[j] as int].entry.entry_name@ && spec_rows_from(
            cs@,
            ord,
            0,
            ctx,
            budget,
            s,
        )[t].path == cs@[ord[j] as int].entry.path@;
    assert(spec_subdir_rows(node, ctx, budget, s)[t].entry_name == cs@[i].entry.entry_name@);
    assert(spec_subdir_rows(node, ctx, budget, s)[t].path == cs@[i].entry.path@);
}

/// With a depth budget of one, a directory renders exactly one row per
/// ordered direct child and descends into none of them.
pub proof fn lemma_depth_one_only_direct_children(
    node: DirTree,
    cs: Vec<DirTree>,
    ctx: Seq<Seq<char>>,
    s: Setting,
)
    requires
        node.entry.is_dir,
        node.children == Children::Listed(cs),
    ensures
        spec_subdir_rows(node, ctx, 1, s).len() == spec_order(cs@, s).len(),
{
    broadcast use vstd::std_specs::vec::axiom_spec_len;

    assert(spec_vec_len(&cs) == cs@.len());
    lemma_rows_from_depth_one(cs@, spec_order(cs@, s), 0, ctx, s);
}

proof fn lemma_rows_from_depth_one(
    cs: Seq<DirTree>,
    ord: Seq<usize>,
    k: int,
    ctx: Seq<Seq<char>>,
    s: Setting,
)
    requires
        0 <= k <= ord.len(),
        ord == spec_order(cs, s),
        cs.len() <= usize::MAX,
    ensures
        spec_rows_from(cs, ord, k, ctx, 1, s).len() == ord.len() - k,
    decreases ord.len() - k,
{
    if k < ord.len() {
        lemma_order_filtered(cs, s, k);
        lemma_rows_from_depth_one(cs, ord, k + 1, ctx, s);
        let child = cs[ord[k] as int];
        let is_last = k == ord.len() - 1;
        let row_ctx = if s.is_no_indentation {
            ctx
        } else {
            ctx.push(branch_glyph(is_last))
        };
        let sub_ctx = if s.is_no_indentation {
            ctx
        } else {
            ctx.push(pad_glyph(is_last))
        };
        let rowm = spec_row(child.entry, row_ctx, s);
        let sub = if child.entry.is_dir {
            spec_subdir_rows(child, sub_ctx, dec_budget(1), s)
        } else {
            Seq::<RowModel>::empty()
        };
        assert(dec_budget(1) == 0);
        assert(sub =~= Seq::<RowModel>::empty());
        assert(spec_rows_from(cs, ord, k, ctx, 1, s) == seq![rowm] + sub + spec_rows_from(
            cs,
            ord,
            k + 1,
            ctx,
            1,
            s,
        ));
    }
}

/// A well-formed entry: unless it is a placeholder, its visibility flag
/// says exactly whether its name is not hidden.  The constructor
/// establishes this.
pub open spec fn wf_entry(e: Entry) -> bool {
    !e.is_empty ==> e.is_visible == crate::utils::spec_visible(e.entry_name@)
}

/// A well-formed snapshot: every entry in it is well-formed.
pub open spec fn wf_tree(t: DirTree) -> bool
    decreases t,
{
    wf_entry(t.entry) && match t.children {
        Children::Unreadable => true,
        Children::Listed(cs) => forall|i: int|
            0 <= i < cs@.len() ==> wf_tree(#[trigger] cs@[i]),
    }
}

/// With show-hidden off, no rendered row's display name begins with a dot:
/// every hidden entry is filtered out of every level of a well-formed
/// snapshot.
pub proof fn lemma_no_hidden_rows(node: DirTree, ctx: Seq<Seq<char>>, budget: int, s: Setting, j: int)
    requires
        wf_tree(node),
        !s.is_all,
        0 <= j < spec_subdir_rows(node, ctx, budget, s).len(),
    ensures
        crate::utils::spec_visible(spec_subdir_rows(node, ctx, budget, s)[j].entry_name),
    decreases tree_height(node), 0int, 0int,
{
    broadcast use vstd::std_specs::vec::axiom_spec_len;

    if budget == 0 || !node.entry.is_dir {
    } else {
        match node.children {
            Children::Unreadable => {},
            Children::Listed(cs) => {
                assert(spec_vec_len(&cs) == cs@.len());
                lemma_rows_from_no_hidden(cs@, spec_order(cs@, s), 0, ctx, budget, s, j);
            },
        }
    }
}

proof fn lemma_rows_from_no_hidden(
    cs: Seq<DirTree>,
    ord: Seq<usize>,
    k: int,
    ctx: Seq<Seq<char>>,
    budget: int,
    s: Setting,
    j: int,
)
    requires
        cs.len() <= usize::MAX,
        ord == spec_order(cs, s),
        forall|i: int| 0 <= i < cs.len() ==> wf_tree(#[trigger] cs[i]),
        !s.is_all,
        0 <= j < spec_rows_from(cs, ord, k, ctx, budget, s).len(),
        0 <= k,
    ensures
        crate::utils::spec_visible(spec_rows_from(cs, ord, k, ctx, budget, s)[j].entry_name),
    decreases forest_height(cs), 1int, ord.len() - k,
{
    if !(0 <= k < ord.len()) {
    } else {
        lemma_order_filtered(cs, s, k);
        let child = cs[ord[k] as int];
        let is_last = k == ord.len() - 1;
        let row_ctx = if s.is_no_indentation {
            ctx
        } else {
            ctx.push(branch_glyph(is_last))
        };
        let sub_ctx = if s.is_no_indentation {
            ctx
        } else {
            ctx.push(pad_glyph(is_last))
        };
        let rowm = spec_row(child.entry, row_ctx, s);
        let sub = if child.entry.is_dir {
            spec_subdir_rows(child, sub_ctx, dec_budget(budget), s)
        } else {
            Seq::<RowModel>::empty()
        };
        let tail = spec_rows_from(cs, ord, k + 1, ctx, budget, s);
        let rest = spec_rows_from(cs, ord, k, ctx, budget, s);
        assert(rest == seq![rowm] + sub + tail);
        if j == 0 {
            assert(rest[0] == rowm);
            assert(child.entry.is_visible);
            assert(wf_tree(child));
        } else if j < 1 + sub.len() {
            assert(rest[j] == sub[j - 1]);
            lemma_tree_height_le_forest(cs, ord[k] as int);
            lemma_no_hidden_rows(child, sub_ctx, dec_budget(budget), s, j - 1);
        } else {
            assert(rest[j] == tail[j - 1 - sub.len()]);
            lemma_rows_from_no_hidden(cs, ord, k + 1, ctx, budget, s, j - 1 - sub.len());
        }
    }
}

/// How many directory descents a render performs: one per directory child
/// in order, plus the descents inside it.
pub open spec fn count_descents(node: DirTree, budget: int, s: Setting) -> nat
    decreases tree_height(node), 0int, 0int,
{
    if budget == 0 || !node.entry.is_dir {
        0
    } else {
        match node.children {
            Children::Unreadable => 0,
            Children::Listed(cs) => descents_from(cs@, spec_order(cs@, s), 0, budget, s),
        }
    }
}

/// The descents performed for the ordered children from position `k` on.
pub open spec fn descents_from(
    cs: Seq<DirTree>,
    ord: Seq<usize>,
    k: int,
    budget: int,
    s: Setting,
) -> nat
    decreases forest_height(cs), 1int, ord.len() - k,
{
    if !(0 <= k < ord.len()) {
        0
    } else if !(ord[k] < cs.len()) {
        0
    } else {
        let child = cs[ord[k] as int];
        (if child.entry.is_dir {
            proof {
                lemma_tree_height_le_forest(cs, ord[k] as int);
            }
            1 + count_descents(child, dec_budget(budget), s)
        } else {
            0nat
        }) + descents_from(cs, ord, k + 1, budget, s)
    }
}

/// The number of directory rows a subtree renders equals the number of
/// directory descents performed below it: every directory child that is
/// entered is printed once, and nothing else prints a directory row.
pub proof fn lemma_dir_rows_are_descents(node: DirTree, ctx: Seq<Seq<char>>, budget: int, s: Setting)
    ensures
        count_dirs(spec_subdir_rows(node, ctx, budget, s)) == count_descents(node, budget, s),
    decreases tree_height(node), 0int, 0int,
{
    if budget == 0 || !node.entry.is_dir {
    } else {
        match node.children {
            Children::Unreadable => {},
            Children::Listed(cs) => {
                lemma_dir_rows_from(cs@, spec_order(cs@, s), 0, ctx, budget, s);
            },
        }
    }
}

proof fn lemma_dir_rows_from(
    cs: Seq<DirTree>,
    ord: Seq<usize>,
    k: int,
    ctx: Seq<Seq<char>>,
    budget: int,
    s: Setting,
)
    ensures
        count_dirs(spec_rows_from(cs, ord, k, ctx, budget, s)) == descents_from(
            cs,
            ord,
            k,
            budget,
            s,
        ),
    decreases forest_height(cs), 1int, ord.len() - k,
{
    if !(0 <= k < ord.len()) {
    } else if !(ord[k] < cs.len()) {
    } else {
        let child = cs[ord[k] as int];
        let is_last = k == ord.len() - 1;
        let row_ctx = if s.is_no_indentation {
            ctx
        } else {
            ctx.push(branch_glyph(is_last))
        };
        let sub_ctx = if s.is_no_indentation {
            ctx
        } else {
            ctx.push(pad_glyph(is_last))
        };
        let rowm = spec_row(child.entry, row_ctx, s);
        let sub = if child.entry.is_dir {
            spec_subdir_rows(child, sub_ctx, dec_budget(budget), s)
        } else {
            Seq::<RowModel>::empty()
        };
        let rest = spec_rows_from(cs, ord, k + 1, ctx, budget, s);
        lemma_counts_add(seq![rowm] + sub, rest);
        lemma_counts_add(seq![rowm], sub);
        lemma_count_single(rowm);
        if child.entry.is_dir {
            lemma_tree_height_le_forest(cs, ord[k] as int);
            lemma_dir_rows_are_descents(child, sub_ctx, dec_budget(budget), s);
        }
        lemma_dir_rows_from(cs, ord, k + 1, ctx, budget, s);
    }
}

/// The depth budget a configuration asks for: `-1` (unlimited) without a
/// level limit, else the numeric value of the level argument.
pub open spec fn spec_level(s: Setting) -> int {
    if !s.is_level_limited {
        -1
    } else {
        spec_parse_i32(s.level@)->Some_0 as int
    }
}

/// Renders a directory's ordered, filtered children, updating the
/// connector state around each child and tallying each row; a directory
/// child is recursed into, and the connector state is restored behind it.
/// An unreadable child list renders nothing: the subtree is skipped and
/// the render goes on.
#[verifier::rlimit(100)]
pub fn print_subdir(
    root: &DirTree,
    prefix: &mut Prefix,
    counter: &mut Counter,
    level_limit: i32,
    out: &mut Vec<Row>,
    setting: &Setting,
)
    requires
        old(prefix).mode == (if setting.is_no_indentation {
            PrefixMode::NoIndentation
        } else {
            PrefixMode::FileTree
        }),
        setting.is_no_indentation ==> old(prefix).segs().len() == 0,
        !setting.is_no_indentation ==> old(prefix).segs().len() >= 1,
        old(counter).dir_count + count_dirs(
            spec_subdir_rows(
                *root,
                crate::utils::pop_seq(old(prefix).segs()),
                level_limit as int,
                *setting,
            ),
        ) <= u32::MAX,
        old(counter).file_count + count_files(
            spec_subdir_rows(
                *root,
                crate::utils::pop_seq(old(prefix).segs()),
                level_limit as int,
                *setting,
            ),
        ) <= u32::MAX,
    ensures
        ({
            let rows = spec_subdir_rows(
                *root,
                crate::utils::pop_seq(old(prefix).segs()),
                level_limit as int,
                *setting,
            );
            &&& rows_view(final(out)@) == rows_view(old(out)@) + rows
            &&& final(prefix).mode == old(prefix).mode
            &&& final(prefix).segs().len() == old(prefix).segs().len()
            &&& crate::utils::pop_seq(final(prefix).segs()) == crate::utils::pop_seq(
                old(prefix).segs(),
            )
            &&& final(counter).dir_count == old(counter).dir_count + count_dirs(rows)
            &&& final(counter).file_count == old(counter).file_count + count_files(rows)
        }),
    decreases tree_height(*root),
{
    let ghost ctx = crate::utils::pop_seq(old(prefix).segs());
    let ghost full_rows = spec_subdir_rows(*root, ctx, level_limit as int, *setting);
    proof {
        assert(rows_view(out@) + Seq::<RowModel>::empty() =~= rows_view(out@));
    }
    if level_limit == 0 {
        return ;
    }
    if !root.entry.is_dir {
        return ;
    }
    let cs = match &root.children {
        Children::Unreadable => {
            return ;
        },
        Children::Listed(cs) => cs,
    };
    let ord = ordered_indices(cs, setting);
    let n = ord.len();
    let ghost gcs = cs@;
    let ghost gord = ord@;
    let ghost budget0 = level_limit as int;
    proof {
        assert(full_rows == spec_rows_from(gcs, gord, 0, ctx, budget0, *setting));
    }
    let mut k: usize = 0;
    while k < n
        invariant
            k <= n,
            prefix.mode == old(prefix).mode,
            prefix.segs().len() == old(prefix).segs().len(),
            crate::utils::pop_seq(prefix.segs()) == ctx,
            !setting.is_no_indentation && 1 <= k < n ==> (prefix.segs().last() == branch_glyph(
                false,
            ) || (k == n - 1 && prefix.segs().last() == branch_glyph(true))),
            rows_view(out@) + spec_rows_from(gcs, gord, k as int, ctx, budget0, *setting)
                == rows_view(old(out)@) + full_rows,
            counter.dir_count + count_dirs(
                spec_rows_from(gcs, gord, k as int, ctx, budget0, *setting),
            ) == old(counter).dir_count + count_dirs(full_rows),
            counter.file_count + count_files(
                spec_rows_from(gcs, gord, k as int, ctx, budget0, *setting),
            ) == old(counter).file_count + count_files(full_rows),
        decreases n - k,
    {
        let ghost rest = spec_rows_from(gcs, gord, k as int, ctx, budget0, *setting);
        let ghost is_last = k as int == gord.len() - 1;
        let i = ord[k];
        let child = &cs[i];
        let ghost row_ctx = if setting.is_no_indentation {
            ctx
        } else {
            ctx.push(branch_glyph(is_last))
        };
        let ghost sub_ctx = if setting.is_no_indentation {
            ctx
        } else {
            ctx.push(pad_glyph(is_last))
        };
        let ghost rowm = spec_row(child.entry, row_ctx, *setting);
        let ghost sub = if child.entry.is_dir {
            spec_subdir_rows(*child, sub_ctx, dec_budget(budget0), *setting)
        } else {
            Seq::<RowModel>::empty()
        };
        proof {
            assert(rest == seq![rowm] + sub + spec_rows_from(
                gcs,
                gord,
                k + 1,
                ctx,
                budget0,
                *setting,
            ));
            lemma_counts_add(seq![rowm] + sub, spec_rows_from(gcs, gord, k + 1, ctx, budget0, *setting));
            lemma_counts_add(seq![rowm], sub);
            assert(seq![rowm].drop_last() =~= Seq::<RowModel>::empty());
            assert((seq![rowm] + sub + spec_rows_from(gcs, gord, k + 1, ctx, budget0, *setting))
                =~= seq![rowm] + (sub + spec_rows_from(gcs, gord, k + 1, ctx, budget0, *setting)));
            lemma_counts_add(sub, spec_rows_from(gcs, gord, k + 1, ctx, budget0, *setting));
            assert(rowm.is_dir == child.entry.is_dir);
            lemma_count_single(rowm);
            assert(count_dirs(rest) == count_dirs(seq![rowm]) + count_dirs(sub) + count_dirs(
                spec_rows_from(gcs, gord, k + 1, ctx, budget0, *setting),
            ));
            assert(count_files(rest) == count_files(seq![rowm]) + count_files(sub) + count_files(
                spec_rows_from(gcs, gord, k + 1, ctx, budget0, *setting),
            ));
            if !setting.is_no_indentation {
                assert(prefix.segs() =~= crate::utils::pop_seq(prefix.segs()).push(
                    prefix.segs().last(),
                ));
            }
        }
        prefix.add_prefix(k == 0, k + 1 == n, false);
        proof {
            if !setting.is_no_indentation {
                assert(prefix.segs() == row_ctx);
            } else {
                assert(prefix.segs() =~= ctx);
            }
        }
        let row = crate::print::send(prefix, &child.entry, setting);
        proof {
            assert(row_model(row) == rowm);
        }
        let ghost out_before = out@;
        out.push(row);
        proof {
            assert(rows_view(out@) =~= rows_view(out_before).push(rowm));
            assert(rows_view(out_before).push(rowm) =~= rows_view(out_before) + seq![rowm]);
        }
        counter.increase_counter(child.entry.is_dir);
        if child.entry.is_dir {
            prefix.add_prefix(false, k + 1 == n, true);
            proof {
                assert(crate::utils::pop_seq(prefix.segs()) =~= sub_ctx);
                lemma_tree_height_le_forest(gcs, i as int);
            }
            let next_level = if level_limit < 0 {
                level_limit
            } else {
                level_limit - 1
            };
            print_subdir(child, prefix, counter, next_level, out, setting);
            proof {
                if !setting.is_no_indentation {
                    assert(crate::utils::pop_seq(crate::utils::pop_seq(prefix.segs())) =~= ctx);
                }
            }
            prefix.remove_prefix(k + 1 == n - 1, true);
        }
        proof {
            assert(rows_view(out@) + spec_rows_from(gcs, gord, k + 1, ctx, budget0, *setting)
                =~= rows_view(old(out)@) + full_rows);
        }
        k = k + 1;
    }
    proof {
        assert(rows_view(out@) + Seq::<RowModel>::empty() =~= rows_view(out@));
    }
}

/// Renders a whole snapshot: the root's own row first, with no connectors,
/// then its subtree, with the depth budget the configuration asks for.
/// Returns the rows in print order and the final tally, which counts every
/// row but the root's.
pub fn print_tree(root: &DirTree, setting: &Setting) -> (r: (Vec<Row>, Counter))
    requires
        setting.is_level_limited ==> spec_parse_i32(setting.level@) is Some,
        count_dirs(spec_subdir_rows(*root, Seq::empty(), spec_level(*setting), *setting))
            <= u32::MAX,
        count_files(spec_subdir_rows(*root, Seq::empty(), spec_level(*setting), *setting))
            <= u32::MAX,
    ensures
        rows_view(r.0@) == spec_render(*root, spec_level(*setting), *setting),
        r.1.dir_count == count_dirs(
            spec_subdir_rows(*root, Seq::empty(), spec_level(*setting), *setting),
        ),
        r.1.file_count == count_files(
            spec_subdir_rows(*root, Seq::empty(), spec_level(*setting), *setting),
        ),
{
    let mut counter = Counter::new();
    let mut prefix = Prefix::new(setting);
    let mut out: Vec<Row> = Vec::new();
    let root_row = crate::print::send(&prefix, &root.entry, setting);
    proof {
        assert(spec_row(root.entry, prefix.segs(), *setting) =~= spec_row(
            root.entry,
            Seq::empty(),
            *setting,
        ));
    }
    out.push(root_row);
    prefix.set_init_value(crate::utils::get_tree_prefix(crate::utils::TreePrefix::Leaf));
    let level = setting.get_level();
    proof {
        assert(crate::utils::pop_seq(prefix.segs()) =~= Seq::<Seq<char>>::empty());
        assert(rows_view(out@) =~= seq![spec_row(root.entry, Seq::empty(), *setting)]);
    }
    print_subdir(root, &mut prefix, &mut counter, level, &mut out, setting);
    proof {
        assert(rows_view(out@) =~= spec_render(*root, spec_level(*setting), *setting));
    }
    (out, counter)
}

} // verus!
