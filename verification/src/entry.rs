use vstd::prelude::*;

use crate::color::{color_from_path, opt_str_view, spec_color_from_path};
use crate::Config;

verus! {

/// Plain metadata of one filesystem path, as the scanner hands it over:
/// everything the color rules read, as simple values.
pub struct PathMeta {
    /// The path is a symbolic link (its own metadata, never followed).
    pub is_symlink: bool,
    /// For a symbolic link: the link target exists.
    pub target_exists: bool,
    /// Metadata could be read at all; `mode` is meaningful only then.
    pub has_metadata: bool,
    /// Unix permission bits.
    pub mode: u32,
    /// The path is a directory.
    pub is_dir: bool,
    /// The path is a regular file.
    pub is_file: bool,
    /// The final extension of the file name, when there is one.
    pub extension: Option<String>,
}

/// A snapshot of one filesystem subtree, taken by the (unverified) scanner:
/// a name, this path's own footprint in bytes under the chosen size metric,
/// its metadata, and its direct children. `children` is `None` for
/// non-directories, symbolic links and unreadable directories.
pub struct FsNode {
    pub name: String,
    pub bytes: u64,
    pub meta: PathMeta,
    pub children: Option<Vec<FsNode>>,
}

/// A node of the built size tree. `entries` is present only for expandable
/// directories; it is absent (not merely empty) for files, depth-truncated
/// directories and the synthetic aggregate node.
pub struct Entry {
    pub name: String,
    pub bytes: u64,
    pub color: Option<String>,
    pub last: bool,
    pub entries: Option<Vec<Entry>>,
}

/// The mathematical shape of an `Entry`: its strings as character sequences
/// and its children as a sequence.
pub struct EntryV {
    pub name: Seq<char>,
    pub bytes: u64,
    pub color: Option<Seq<char>>,
    pub last: bool,
    pub entries: Option<Seq<EntryV>>,
}

/// The view of an entry tree.
pub open spec fn entry_view(e: Entry) -> EntryV
    decreases e, 0int,
{
    EntryV {
        name: e.name@,
        bytes: e.bytes,
        color: opt_str_view(e.color),
        last: e.last,
        entries: if e.entries is Some {
            Some(entry_seq_view(e.entries.unwrap()@))
        } else {
            None
        },
    }
}

/// The views of a sequence of entry trees, in order.
pub open spec fn entry_seq_view(s: Seq<Entry>) -> Seq<EntryV>
    decreases s, s.len(),
{
    if s.len() == 0 {
        Seq::<EntryV>::empty()
    } else {
        seq![entry_view(s[0])] + entry_seq_view(s.drop_first())
    }
}

/// Pointwise description of `entry_seq_view`.
pub proof fn lemma_esv(s: Seq<Entry>)
    ensures
        entry_seq_view(s).len() == s.len(),
        forall|k: int| 0 <= k < s.len() ==> entry_seq_view(s)[k] == entry_view(s[k]),
    decreases s.len(),
{
    if s.len() > 0 {
        lemma_esv(s.drop_first());
    }
}

/// Total size of a subtree: the node's own footprint plus, recursively, the
/// totals of all its children, with nothing filtered out.
pub open spec fn fs_total(n: FsNode) -> int
    decreases n, 0int,
{
    n.bytes + if n.children is Some {
        fs_total_from(n.children.unwrap()@, 0)
    } else {
        0
    }
}

/// Sum of `fs_total` over the subtrees of `s` from position `i` on.
pub open spec fn fs_total_from(s: Seq<FsNode>, i: int) -> int
    decreases s, s.len() - i,
{
    if i < 0 || i >= s.len() {
        0
    } else {
        fs_total(s[i]) + fs_total_from(s, i + 1)
    }
}

/// A subtree total is at least the node's own footprint.
pub proof fn lemma_fs_total_nonneg(n: FsNode)
    ensures
        fs_total(n) >= n.bytes,
    decreases n, 0int,
{
    if n.children is Some {
        lemma_fs_total_from_nonneg(n.children.unwrap()@, 0);
    }
}

/// Suffix sums of subtree totals are non-negative.
pub proof fn lemma_fs_total_from_nonneg(s: Seq<FsNode>, i: int)
    ensures
        fs_total_from(s, i) >= 0,
    decreases s, s.len() - i,
{
    if 0 <= i < s.len() {
        lemma_fs_total_nonneg(s[i]);
        lemma_fs_total_from_nonneg(s, i + 1);
    }
}

/// Well-formed snapshot: every node carries a non-empty name.
pub open spec fn fs_wf(n: FsNode) -> bool
    decreases n, 0int,
{
    n.name@.len() > 0 && (n.children is Some ==> fs_wf_from(n.children.unwrap()@, 0))
}

pub open spec fn fs_wf_from(s: Seq<FsNode>, i: int) -> bool
    decreases s, s.len() - i,
{
    i < 0 || i >= s.len() || (fs_wf(s[i]) && fs_wf_from(s, i + 1))
}

/// Whether `name` matches the exclusion list, searching from position `i`.
pub open spec fn is_excluded_from(name: Seq<char>, ex: Seq<String>, i: int) -> bool
    decreases ex.len() - i,
{
    if i < 0 || i >= ex.len() {
        false
    } else {
        ex[i]@ == name || is_excluded_from(name, ex, i + 1)
    }
}

/// Whether `name` is one of the excluded names.
pub open spec fn is_excluded_v(name: Seq<char>, ex: Seq<String>) -> bool {
    is_excluded_from(name, ex, 0)
}

/// A child survives the filters when its name is not excluded and, under
/// hidden filtering, does not start with a dot.
pub open spec fn spec_keep(c: FsNode, cfg: Config) -> bool {
    &&& !is_excluded_v(c.name@, cfg.exclude@)
    &&& !(cfg.hiddn_flag && c.name@.len() > 0 && c.name@[0] == '.')
}

fn is_excluded_idx(name: &String, ex: &Vec<String>, i: usize) -> (r: bool)
    ensures
        r == is_excluded_from(name@, ex@, i as int),
    decreases ex@.len() - i,
{
    if i >= ex.len() {
        false
    } else if ex[i] == *name {
        true
    } else {
        is_excluded_idx(name, ex, i + 1)
    }
}

fn keep_child(c: &FsNode, cfg: &Config) -> (r: bool)
    requires
        c.name@.len() > 0,
    ensures
        r == spec_keep(*c, *cfg),
{
    if is_excluded_idx(&c.name, &cfg.exclude, 0) {
        return false;
    }
    if cfg.hiddn_flag && c.name.as_str().get_char(0) == '.' {
        return false;
    }
    true
}

/// The display depth left for the children of a node entered at `depth`.
pub open spec fn next_depth(cfg: Config, depth: u8) -> u8 {
    if cfg.depth_flag {
        (depth - 1) as u8
    } else {
        1u8
    }
}

/// A node is expanded (its children listed) when its directory listing is
/// available and the display depth is not exhausted.
pub open spec fn spec_expand(n: FsNode, cfg: Config, depth: u8) -> bool {
    n.children is Some && (!cfg.depth_flag || next_depth(cfg, depth) > 0)
}

/// Sum of entry sizes over a sequence of entry views.
pub open spec fn sum_bytes_v(s: Seq<EntryV>) -> int
    decreases s,
{
    if s.len() == 0 {
        0
    } else {
        s[0].bytes + sum_bytes_v(s.drop_first())
    }
}

/// Sizes never increase along the sequence.
pub open spec fn sorted_desc_v(s: Seq<EntryV>) -> bool {
    forall|i: int, j: int| 0 <= i <= j < s.len() ==> s[i].bytes >= s[j].bytes
}

/// Stable descending insertion: `e` goes after every element at least as
/// large, before the first strictly smaller one.
pub open spec fn spec_insert_desc(s: Seq<EntryV>, e: EntryV) -> Seq<EntryV>
    decreases s,
{
    if s.len() == 0 {
        seq![e]
    } else if s[0].bytes >= e.bytes {
        seq![s[0]] + spec_insert_desc(s.drop_first(), e)
    } else {
        seq![e] + s
    }
}

/// Descending insertion adds one element, adds its size to the sum,
/// introduces no foreign elements, and preserves sortedness.
pub proof fn lemma_insert_desc_props(s: Seq<EntryV>, e: EntryV)
    ensures
        spec_insert_desc(s, e).len() == s.len() + 1,
        sum_bytes_v(spec_insert_desc(s, e)) == sum_bytes_v(s) + e.bytes,
        forall|x: EntryV| #[trigger]
            spec_insert_desc(s, e).contains(x) ==> (s.contains(x) || x == e),
        sorted_desc_v(s) ==> sorted_desc_v(spec_insert_desc(s, e)),
    decreases s.len(),
{
    let r = spec_insert_desc(s, e);
    if s.len() == 0 {
        assert forall|x: EntryV| #[trigger] r.contains(x) implies (s.contains(x) || x == e) by {
            let k = choose|k: int| 0 <= k < r.len() && r[k] == x;
            assert(k == 0);
        }
        assert(sum_bytes_v(r) == e.bytes + sum_bytes_v(r.drop_first()));
    } else if s[0].bytes >= e.bytes {
        let rest = s.drop_first();
        lemma_insert_desc_props(rest, e);
        let ri = spec_insert_desc(rest, e);
        assert(r == seq![s[0]] + ri);
        assert(r.drop_first() =~= ri);
        assert(sum_bytes_v(r) == s[0].bytes + sum_bytes_v(ri));
        assert(sum_bytes_v(s) == s[0].bytes + sum_bytes_v(rest));
        assert forall|x: EntryV| #[trigger] r.contains(x) implies (s.contains(x) || x == e) by {
            let k = choose|k: int| 0 <= k < r.len() && r[k] == x;
            if k == 0 {
                assert(s[0] == x);
                assert(s.contains(x));
            } else {
                assert(ri[k - 1] == x);
                assert(ri.contains(x));
                if rest.contains(x) {
                    let m = choose|m: int| 0 <= m < rest.len() && rest[m] == x;
                    assert(s[m + 1] == x);
                    assert(s.contains(x));
                }
            }
        }
        if sorted_desc_v(s) {
            assert(sorted_desc_v(rest)) by {
                assert(forall|i: int, j: int|
                    0 <= i <= j < rest.len() ==> rest[i] == s[i + 1] && rest[j] == s[j + 1]);
            }
            assert forall|i: int, j: int|
                0 <= i <= j < r.len() implies r[i].bytes >= r[j].bytes by {
                if i == 0 && j > 0 {
                    assert(ri[j - 1] == r[j]);
                    assert(ri.contains(ri[j - 1]));
                    if rest.contains(ri[j - 1]) {
                        let m = choose|m: int| 0 <= m < rest.len() && rest[m] == ri[j - 1];
                        assert(s[m + 1] == ri[j - 1]);
                        assert(s[0].bytes >= s[m + 1].bytes);
                    } else {
                        assert(ri[j - 1] == e);
                    }
                }
            }
        }
    } else {
        assert(r == seq![e] + s);
        assert(r.drop_first() =~= s);
        assert forall|x: EntryV| #[trigger] r.contains(x) implies (s.contains(x) || x == e) by {
            let k = choose|k: int| 0 <= k < r.len() && r[k] == x;
            if k > 0 {
                assert(s[k - 1] == x);
                assert(s.contains(x));
            }
        }
        if sorted_desc_v(s) {
            assert forall|i: int, j: int|
                0 <= i <= j < r.len() implies r[i].bytes >= r[j].bytes by {
                if i == 0 && j > 0 {
                    assert(r[j] == s[j - 1]);
                    assert(s[0].bytes >= s[j - 1].bytes);
                }
            }
        }
    }
}

/// The exact position of a descending insertion, given the boundary index.
pub proof fn lemma_insert_desc_at(s: Seq<EntryV>, e: EntryV, j: int)
    requires
        0 <= j <= s.len(),
        forall|k: int| 0 <= k < j ==> s[k].bytes >= e.bytes,
        j < s.len() ==> s[j].bytes < e.bytes,
    ensures
        spec_insert_desc(s, e).len() == s.len() + 1,
        forall|k: int| 0 <= k < j ==> spec_insert_desc(s, e)[k] == s[k],
        spec_insert_desc(s, e)[j] == e,
        forall|k: int| j < k <= s.len() ==> spec_insert_desc(s, e)[k] == s[k - 1],
    decreases j,
{
    lemma_insert_desc_props(s, e);
    let r = spec_insert_desc(s, e);
    if j == 0 {
        if s.len() == 0 {
            assert(r == seq![e]);
        } else {
            assert(r == seq![e] + s);
        }
    } else {
        let rest = s.drop_first();
        assert forall|k: int| 0 <= k < j - 1 implies rest[k].bytes >= e.bytes by {
            assert(rest[k] == s[k + 1]);
        }
        lemma_insert_desc_at(rest, e, j - 1);
        let ri = spec_insert_desc(rest, e);
        assert(r == seq![s[0]] + ri);
        assert forall|k: int| 0 <= k < j implies r[k] == s[k] by {
            if k > 0 {
                assert(r[k] == ri[k - 1]);
                assert(ri[k - 1] == rest[k - 1]);
                assert(rest[k - 1] == s[k]);
            }
        }
        assert(r[j] == ri[j - 1]);
        assert forall|k: int| j < k <= s.len() implies r[k] == s[k - 1] by {
            assert(r[k] == ri[k - 1]);
            assert(ri[k - 1] == rest[k - 2]);
            assert(rest[k - 2] == s[k - 1]);
        }
    }
}

pub(crate) fn insert_desc(v: &mut Vec<Entry>, e: Entry)
    ensures
        entry_seq_view(final(v)@) == spec_insert_desc(
            entry_seq_view(old(v)@),
            entry_view(e),
        ),
        final(v)@.len() == old(v)@.len() + 1,
{
    let mut j: usize = 0;
    while j < v.len() && v[j].bytes >= e.bytes
        invariant
            j <= v@.len(),
            v@ == old(v)@,
            forall|k: int| 0 <= k < j ==> v@[k].bytes >= e.bytes,
        decreases v@.len() - j,
    {
        j = j + 1;
    }
    proof {
        lemma_esv(v@);
        assert(entry_view(e).bytes == e.bytes);
        assert forall|k: int| 0 <= k < j implies entry_seq_view(v@)[k].bytes >= entry_view(
            e,
        ).bytes by {
            assert(entry_seq_view(v@)[k] == entry_view(v@[k]));
            assert(entry_view(v@[k]).bytes == v@[k].bytes);
        }
        if (j as int) < v@.len() {
            assert(entry_seq_view(v@)[j as int] == entry_view(v@[j as int]));
            assert(entry_view(v@[j as int]).bytes == v@[j as int].bytes);
        }
        lemma_insert_desc_at(entry_seq_view(v@), entry_view(e), j as int);
    }
    let ghost pre = v@;
    v.insert(j, e);
    proof {
        lemma_esv(v@);
        let si = spec_insert_desc(entry_seq_view(pre), entry_view(e));
        assert forall|k: int| 0 <= k < v@.len() implies entry_view(v@[k]) == si[k] by {
            lemma_esv(pre);
            if k < j {
                assert(v@[k] == pre[k]);
                assert(si[k] == entry_seq_view(pre)[k]);
            } else if k == j {
                assert(v@[k] == e);
            } else {
                assert(v@[k] == pre[k - 1]);
                assert(si[k] == entry_seq_view(pre)[k - 1]);
            }
        }
        assert(entry_seq_view(v@) =~= si);
    }
}

/// The last element of a list, flagged as the last sibling.
pub open spec fn with_last_v(e: EntryV) -> EntryV {
    EntryV { last: true, ..e }
}

/// The child list with its final element flagged as the last sibling.
pub open spec fn spec_mark_last(s: Seq<EntryV>) -> Seq<EntryV> {
    if s.len() == 0 {
        s
    } else {
        s.update(s.len() - 1, with_last_v(s.last()))
    }
}

pub(crate) fn mark_last(v: &mut Vec<Entry>)
    ensures
        entry_seq_view(final(v)@) == spec_mark_last(entry_seq_view(old(v)@)),
{
    proof {
        lemma_esv(v@);
    }
    if v.len() > 0 {
        let ghost pre = v@;
        let e = v.pop().unwrap();
        let e2 = Entry { last: true, ..e };
        v.push(e2);
        proof {
            lemma_esv(v@);
            lemma_esv(pre);
            assert(entry_view(e2) == with_last_v(entry_view(e)));
            assert forall|k: int| 0 <= k < v@.len() implies entry_view(v@[k]) == spec_mark_last(
                entry_seq_view(pre),
            )[k] by {
                if k < v@.len() - 1 {
                    assert(v@[k] == pre[k]);
                }
            }
            assert(entry_seq_view(v@) =~= spec_mark_last(entry_seq_view(pre)));
        }
    }
}

/// The synthetic node that stands for all below-threshold children together.
pub open spec fn aggregate_v(bytes: u64) -> EntryV {
    EntryV { name: "<aggregated>"@, bytes, color: None, last: true, entries: None }
}

/// The listed children accumulated into `acc`, walking the snapshot children
/// from position `i`: each surviving child is built and, unless it falls
/// under the aggregation threshold, placed by descending size.
pub open spec fn spec_children_acc(
    acc: Seq<EntryV>,
    cs: Seq<FsNode>,
    i: int,
    cfg: Config,
    d: u8,
) -> Seq<EntryV>
    decreases cs, cs.len() - i,
{
    if i < 0 || i >= cs.len() {
        acc
    } else {
        let acc2 = if spec_keep(cs[i], cfg) {
            if cfg.aggr > 0 && spec_build(cs[i], cfg, d).bytes < cfg.aggr {
                acc
            } else {
                spec_insert_desc(acc, spec_build(cs[i], cfg, d))
            }
        } else {
            acc
        };
        spec_children_acc(acc2, cs, i + 1, cfg, d)
    }
}

/// Sum of the sizes of the individually-listed children from position `i` on.
pub open spec fn lsum_from(cs: Seq<FsNode>, i: int, cfg: Config, d: u8) -> int
    decreases cs, cs.len() - i,
{
    if i < 0 || i >= cs.len() {
        0
    } else {
        (if spec_keep(cs[i], cfg) && !(cfg.aggr > 0 && spec_build(cs[i], cfg, d).bytes
            < cfg.aggr) {
            spec_build(cs[i], cfg, d).bytes as int
        } else {
            0
        }) + lsum_from(cs, i + 1, cfg, d)
    }
}

/// Sum of the sizes of the below-threshold children from position `i` on:
/// what the aggregate node stands for.
pub open spec fn aggr_from(cs: Seq<FsNode>, i: int, cfg: Config, d: u8) -> int
    decreases cs, cs.len() - i,
{
    if i < 0 || i >= cs.len() {
        0
    } else {
        (if spec_keep(cs[i], cfg) && cfg.aggr > 0 && spec_build(cs[i], cfg, d).bytes
            < cfg.aggr {
            spec_build(cs[i], cfg, d).bytes as int
        } else {
            0
        }) + aggr_from(cs, i + 1, cfg, d)
    }
}

/// The entry tree built from a snapshot: an expanded directory lists its
/// filtered children sorted by descending size, with a trailing aggregate
/// node when below-threshold children exist, the final child flagged as
/// last, and its size equal to its own footprint plus all retained children;
/// anything else is a leaf whose size is the full unfiltered subtree total.
pub open spec fn spec_build(n: FsNode, cfg: Config, depth: u8) -> EntryV
    decreases n, 0int,
{
    let color = if cfg.ascii_flag {
        Option::<Seq<char>>::None
    } else {
        spec_color_from_path(n.meta, cfg.color_dict@)
    };
    if spec_expand(n, cfg, depth) {
        let cs = n.children.unwrap()@;
        let d = next_depth(cfg, depth);
        let listed = spec_children_acc(Seq::<EntryV>::empty(), cs, 0, cfg, d);
        let lsum = lsum_from(cs, 0, cfg, d);
        let asum = aggr_from(cs, 0, cfg, d);
        let with_aggr = if asum > 0 {
            listed.push(aggregate_v(asum as u64))
        } else {
            listed
        };
        EntryV {
            name: n.name@,
            bytes: (n.bytes + lsum + asum) as u64,
            color,
            last: false,
            entries: Some(spec_mark_last(with_aggr)),
        }
    } else {
        EntryV {
            name: n.name@,
            bytes: fs_total(n) as u64,
            color,
            last: false,
            entries: None,
        }
    }
}

/// A built entry never reports more than its snapshot subtree holds.
pub proof fn lemma_build_bytes_le(n: FsNode, cfg: Config, depth: u8)
    requires
        fs_total(n) <= u64::MAX,
    ensures
        spec_build(n, cfg, depth).bytes <= fs_total(n),
    decreases n, 0int,
{
    lemma_fs_total_nonneg(n);
    if spec_expand(n, cfg, depth) {
        let cs = n.children.unwrap()@;
        let d = next_depth(cfg, depth);
        lemma_fs_total_from_nonneg(cs, 0);
        lemma_sums_le(cs, 0, cfg, d);
    }
}

/// Listed and aggregated sizes together stay within the snapshot total.
pub proof fn lemma_sums_le(cs: Seq<FsNode>, i: int, cfg: Config, d: u8)
    requires
        fs_total_from(cs, i) <= u64::MAX,
    ensures
        0 <= lsum_from(cs, i, cfg, d),
        0 <= aggr_from(cs, i, cfg, d),
        lsum_from(cs, i, cfg, d) + aggr_from(cs, i, cfg, d) <= fs_total_from(cs, i),
    decreases cs, cs.len() - i,
{
    if 0 <= i < cs.len() {
        lemma_fs_total_nonneg(cs[i]);
        lemma_fs_total_from_nonneg(cs, i + 1);
        lemma_build_bytes_le(cs[i], cfg, d);
        lemma_sums_le(cs, i + 1, cfg, d);
    }
}

fn build_children(
    cs: &Vec<FsNode>,
    i: usize,
    cfg: &Config,
    d: u8,
    vec: &mut Vec<Entry>,
    lsum: &mut u64,
    aggr_bytes: &mut u64,
)
    requires
        fs_wf_from(cs@, i as int),
        *old(lsum) + *old(aggr_bytes) + fs_total_from(cs@, i as int) <= u64::MAX,
        cfg.depth_flag ==> d >= 1,
    ensures
        entry_seq_view(final(vec)@) == spec_children_acc(
            entry_seq_view(old(vec)@),
            cs@,
            i as int,
            *cfg,
            d,
        ),
        *final(lsum) == *old(lsum) + lsum_from(cs@, i as int, *cfg, d),
        *final(aggr_bytes) == *old(aggr_bytes) + aggr_from(cs@, i as int, *cfg, d),
    decreases cs@, cs@.len() - i,
{
    if i >= cs.len() {
        return ;
    }
    let c = &cs[i];
    proof {
        assert(fs_wf(cs@[i as int]) && fs_wf_from(cs@, i as int + 1));
        assert(c.name@.len() > 0);
        lemma_fs_total_nonneg(*c);
        lemma_fs_total_from_nonneg(cs@, i as int + 1);
        lemma_build_bytes_le(*c, *cfg, d);
    }
    if keep_child(c, cfg) {
        let e = Entry::new(c, cfg, d);
        assert(e.bytes == spec_build(cs@[i as int], *cfg, d).bytes);
        if cfg.aggr > 0 && e.bytes < cfg.aggr {
            *aggr_bytes = *aggr_bytes + e.bytes;
        } else {
            let eb = e.bytes;
            insert_desc(vec, e);
            *lsum = *lsum + eb;
        }
    }
    build_children(cs, i + 1, cfg, d, vec, lsum, aggr_bytes);
}

impl Entry {
    /// Builds the size tree for one snapshot node: filters, recurses, sorts
    /// by descending size, aggregates below-threshold children and marks the
    /// final sibling, exactly as `spec_build` states.
    pub fn new(node: &FsNode, cfg: &Config, depth: u8) -> (r: Entry)
        requires
            fs_wf(*node),
            fs_total(*node) <= u64::MAX,
            cfg.depth_flag ==> depth >= 1,
        ensures
            entry_view(r) == spec_build(*node, *cfg, depth),
        decreases *node, 0int,
    {
        let d: u8 = if cfg.depth_flag {
            depth - 1
        } else {
            1
        };
        let mut lsum: u64 = 0;
        let mut aggr_bytes: u64 = 0;
        let entries: Option<Vec<Entry>> = match &node.children {
            Some(cs) => {
                if !cfg.depth_flag || d > 0 {
                    proof {
                        lemma_fs_total_from_nonneg(cs@, 0);
                    }
                    let mut vec: Vec<Entry> = Vec::new();
                    build_children(cs, 0, cfg, d, &mut vec, &mut lsum, &mut aggr_bytes);
                    if aggr_bytes > 0 {
                        let agg = Entry {
                            name: "<aggregated>".to_owned(),
                            bytes: aggr_bytes,
                            color: None,
                            last: true,
                            entries: None,
                        };
                        proof {
                            lemma_esv(vec@);
                            assert(entry_view(agg) == aggregate_v(aggr_bytes));
                        }
                        let ghost pre = vec@;
                        vec.push(agg);
                        proof {
                            lemma_esv(vec@);
                            assert forall|k: int| 0 <= k < vec@.len() implies entry_view(
                                vec@[k],
                            ) == entry_seq_view(pre).push(aggregate_v(aggr_bytes))[k] by {
                                lemma_esv(pre);
                                if k < vec@.len() - 1 {
                                    assert(vec@[k] == pre[k]);
                                }
                            }
                            assert(entry_seq_view(vec@) =~= entry_seq_view(pre).push(
                                aggregate_v(aggr_bytes),
                            ));
                        }
                    }
                    mark_last(&mut vec);
                    Some(vec)
                } else {
                    None
                }
            },
            None => None,
        };
        proof {
            lemma_fs_total_nonneg(*node);
            if node.children is Some {
                lemma_fs_total_from_nonneg(node.children.unwrap()@, 0);
                lemma_sums_le(node.children.unwrap()@, 0, *cfg, d);
            }
        }
        let bytes: u64 = if entries.is_some() {
            node.bytes + lsum + aggr_bytes
        } else {
            get_bytes(node)
        };
        let color: Option<String> = if !cfg.ascii_flag {
            color_from_path(&node.meta, &cfg.color_dict)
        } else {
            None
        };
        let r = Entry { name: node.name.clone(), bytes, color, last: false, entries };
        proof {
            assert(entry_view(r) =~= spec_build(*node, *cfg, depth));
        }
        r
    }
}

/// The full, unfiltered size of a subtree: the node's own footprint plus,
/// recursively, everything below it — what a leaf or depth-truncated
/// directory reports.
pub fn get_bytes(node: &FsNode) -> (r: u64)
    requires
        fs_total(*node) <= u64::MAX,
    ensures
        r as int == fs_total(*node),
    decreases *node, 0int,
{
    match &node.children {
        Some(cs) => {
            proof {
                lemma_fs_total_from_nonneg(cs@, 0);
            }
            let rest = sum_bytes_from(cs, 0);
            node.bytes + rest
        },
        None => node.bytes,
    }
}

/// Well-formed entry tree: every listed child is no larger than its parent,
/// recursively.
pub open spec fn wf_v(e: EntryV) -> bool
    decreases e, 0int,
{
    e.entries is Some ==> wf_list_v(e.entries.unwrap(), e.bytes, 0)
}

pub open spec fn wf_list_v(cs: Seq<EntryV>, bound: u64, i: int) -> bool
    decreases cs, cs.len() - i,
{
    i < 0 || i >= cs.len() || (cs[i].bytes <= bound && wf_v(cs[i]) && wf_list_v(
        cs,
        bound,
        i + 1,
    ))
}

/// Pointwise well-formedness of a child list gives `wf_list_v`.
pub proof fn lemma_wf_list_from_index(cs: Seq<EntryV>, bound: u64, i: int)
    requires
        forall|k: int| i <= k < cs.len() ==> cs[k].bytes <= bound && wf_v(cs[k]),
    ensures
        wf_list_v(cs, bound, i),
    decreases cs.len() - i,
{
    if 0 <= i < cs.len() {
        lemma_wf_list_from_index(cs, bound, i + 1);
    }
}

/// Appending an element adds its size to the sum.
pub proof fn lemma_sum_push(s: Seq<EntryV>, e: EntryV)
    ensures
        sum_bytes_v(s.push(e)) == sum_bytes_v(s) + e.bytes,
    decreases s.len(),
{
    let p = s.push(e);
    assert(p.len() == s.len() + 1);
    assert(sum_bytes_v(p) == p[0].bytes + sum_bytes_v(p.drop_first()));
    if s.len() == 0 {
        assert(p[0] == e);
        assert(p.drop_first() =~= Seq::<EntryV>::empty());
        assert(sum_bytes_v(p.drop_first()) == 0);
    } else {
        assert(p[0] == s[0]);
        assert(p.drop_first() =~= s.drop_first().push(e));
        lemma_sum_push(s.drop_first(), e);
        assert(sum_bytes_v(s) == s[0].bytes + sum_bytes_v(s.drop_first()));
    }
}

/// Flagging the final sibling changes no sizes.
pub proof fn lemma_sum_mark_last(s: Seq<EntryV>)
    ensures
        sum_bytes_v(spec_mark_last(s)) == sum_bytes_v(s),
        spec_mark_last(s).len() == s.len(),
    decreases s.len(),
{
    let m = spec_mark_last(s);
    if s.len() == 1 {
        assert(m[0] == with_last_v(s.last()));
        assert(sum_bytes_v(m) == m[0].bytes + sum_bytes_v(m.drop_first()));
        assert(m.drop_first() =~= Seq::<EntryV>::empty());
        assert(sum_bytes_v(s) == s[0].bytes + sum_bytes_v(s.drop_first()));
        assert(s.drop_first() =~= Seq::<EntryV>::empty());
    } else if s.len() > 1 {
        lemma_sum_mark_last(s.drop_first());
        assert(sum_bytes_v(m) == m[0].bytes + sum_bytes_v(m.drop_first()));
        assert(m.drop_first() =~= spec_mark_last(s.drop_first()));
        assert(m[0] == s[0]);
        assert(sum_bytes_v(s) == s[0].bytes + sum_bytes_v(s.drop_first()));
    }
}

/// The accumulated child list carries exactly the listed children's sizes.
pub proof fn lemma_children_acc_sum(acc: Seq<EntryV>, cs: Seq<FsNode>, i: int, cfg: Config, d: u8)
    ensures
        sum_bytes_v(spec_children_acc(acc, cs, i, cfg, d)) == sum_bytes_v(acc) + lsum_from(
            cs,
            i,
            cfg,
            d,
        ),
    decreases cs.len() - i,
{
    if 0 <= i < cs.len() {
        if spec_keep(cs[i], cfg) && !(cfg.aggr > 0 && spec_build(cs[i], cfg, d).bytes
            < cfg.aggr) {
            lemma_insert_desc_props(acc, spec_build(cs[i], cfg, d));
            lemma_children_acc_sum(spec_insert_desc(acc, spec_build(cs[i], cfg, d)), cs, i + 1, cfg, d);
        } else {
            lemma_children_acc_sum(acc, cs, i + 1, cfg, d);
        }
    }
}

/// Accumulating children preserves descending order.
pub proof fn lemma_children_acc_sorted(acc: Seq<EntryV>, cs: Seq<FsNode>, i: int, cfg: Config, d: u8)
    requires
        sorted_desc_v(acc),
    ensures
        sorted_desc_v(spec_children_acc(acc, cs, i, cfg, d)),
    decreases cs.len() - i,
{
    if 0 <= i < cs.len() {
        if spec_keep(cs[i], cfg) && !(cfg.aggr > 0 && spec_build(cs[i], cfg, d).bytes
            < cfg.aggr) {
            lemma_insert_desc_props(acc, spec_build(cs[i], cfg, d));
            lemma_children_acc_sorted(spec_insert_desc(acc, spec_build(cs[i], cfg, d)), cs, i + 1, cfg, d);
        } else {
            lemma_children_acc_sorted(acc, cs, i + 1, cfg, d);
        }
    }
}

/// Every accumulated child is unflagged and, under aggregation, meets the
/// threshold.
pub proof fn lemma_children_acc_elems(acc: Seq<EntryV>, cs: Seq<FsNode>, i: int, cfg: Config, d: u8)
    ensures
        forall|x: EntryV| #[trigger]
            spec_children_acc(acc, cs, i, cfg, d).contains(x) ==> acc.contains(x) || (x.last
                == false && (cfg.aggr > 0 ==> x.bytes >= cfg.aggr)),
    decreases cs.len() - i,
{
    if 0 <= i < cs.len() {
        let r = spec_children_acc(acc, cs, i, cfg, d);
        if spec_keep(cs[i], cfg) && !(cfg.aggr > 0 && spec_build(cs[i], cfg, d).bytes
            < cfg.aggr) {
            let e = spec_build(cs[i], cfg, d);
            let acc2 = spec_insert_desc(acc, e);
            lemma_insert_desc_props(acc, e);
            lemma_children_acc_elems(acc2, cs, i + 1, cfg, d);
            assert(e.last == false);
            assert forall|x: EntryV| #[trigger] r.contains(x) implies acc.contains(x) || (
            x.last == false && (cfg.aggr > 0 ==> x.bytes >= cfg.aggr)) by {
                assert(spec_children_acc(acc2, cs, i + 1, cfg, d).contains(x));
                if acc2.contains(x) {
                    assert(acc.contains(x) || x == e);
                }
            }
        } else {
            lemma_children_acc_elems(acc, cs, i + 1, cfg, d);
            assert forall|x: EntryV| #[trigger] r.contains(x) implies acc.contains(x) || (
            x.last == false && (cfg.aggr > 0 ==> x.bytes >= cfg.aggr)) by {
                assert(spec_children_acc(acc, cs, i + 1, cfg, d).contains(x));
            }
        }
    }
}

/// A built tree is well-formed: no child outweighs its parent, recursively.
pub proof fn lemma_build_wf(n: FsNode, cfg: Config, depth: u8)
    requires
        fs_total(n) <= u64::MAX,
    ensures
        wf_v(spec_build(n, cfg, depth)),
    decreases n, 0int,
{
    lemma_fs_total_nonneg(n);
    if spec_expand(n, cfg, depth) {
        let cs = n.children.unwrap()@;
        let d = next_depth(cfg, depth);
        lemma_fs_total_from_nonneg(cs, 0);
        lemma_sums_le(cs, 0, cfg, d);
        let listed = spec_children_acc(Seq::<EntryV>::empty(), cs, 0, cfg, d);
        let lsum = lsum_from(cs, 0, cfg, d);
        let asum = aggr_from(cs, 0, cfg, d);
        let total = (n.bytes + lsum + asum) as u64;
        lemma_children_acc_wf(Seq::<EntryV>::empty(), cs, 0, cfg, d);
        let with_aggr = if asum > 0 {
            listed.push(aggregate_v(asum as u64))
        } else {
            listed
        };
        let children = spec_mark_last(with_aggr);
        assert forall|k: int| 0 <= k < children.len() implies children[k].bytes <= total
            && wf_v(children[k]) by {
            let orig = with_aggr[k];
            assert(wf_v(with_last_v(orig)) == wf_v(orig));
            if asum > 0 && k == with_aggr.len() - 1 && k == listed.len() {
                assert(orig == aggregate_v(asum as u64));
            } else {
                assert(orig == listed[k]);
                assert(listed.contains(orig));
            }
        }
        lemma_wf_list_from_index(children, total, 0);
        assert(spec_build(n, cfg, depth).entries == Some(children));
    }
}

/// Every accumulated child is a well-formed built tree within the listed sum.
pub proof fn lemma_children_acc_wf(acc: Seq<EntryV>, cs: Seq<FsNode>, i: int, cfg: Config, d: u8)
    requires
        fs_total_from(cs, i) <= u64::MAX,
    ensures
        forall|x: EntryV| #[trigger]
            spec_children_acc(acc, cs, i, cfg, d).contains(x) ==> acc.contains(x) || (wf_v(x)
                && x.bytes <= lsum_from(cs, i, cfg, d)),
    decreases cs, cs.len() - i,
{
    if 0 <= i < cs.len() {
        let r = spec_children_acc(acc, cs, i, cfg, d);
        lemma_fs_total_nonneg(cs[i]);
        lemma_fs_total_from_nonneg(cs, i + 1);
        lemma_sums_le(cs, i + 1, cfg, d);
        lemma_build_bytes_le(cs[i], cfg, d);
        if spec_keep(cs[i], cfg) && !(cfg.aggr > 0 && spec_build(cs[i], cfg, d).bytes
            < cfg.aggr) {
            let e = spec_build(cs[i], cfg, d);
            let acc2 = spec_insert_desc(acc, e);
            lemma_insert_desc_props(acc, e);
            lemma_build_wf(cs[i], cfg, d);
            lemma_children_acc_wf(acc2, cs, i + 1, cfg, d);
            assert forall|x: EntryV| #[trigger] r.contains(x) implies acc.contains(x) || (
            wf_v(x) && x.bytes <= lsum_from(cs, i, cfg, d)) by {
                assert(spec_children_acc(acc2, cs, i + 1, cfg, d).contains(x));
                if acc2.contains(x) {
                    assert(acc.contains(x) || x == e);
                }
            }
        } else {
            lemma_children_acc_wf(acc, cs, i + 1, cfg, d);
            assert forall|x: EntryV| #[trigger] r.contains(x) implies acc.contains(x) || (
            wf_v(x) && x.bytes <= lsum_from(cs, i, cfg, d)) by {
                assert(spec_children_acc(acc, cs, i + 1, cfg, d).contains(x));
            }
        }
    }
}

/// Law: a directory entry's reported size is its own footprint plus the sum
/// of its children's sizes, the aggregate child included. Every subtree of a
/// built tree is itself built from the corresponding snapshot subtree, so
/// this holds recursively throughout the tree.
pub proof fn lemma_size_invariant(n: FsNode, cfg: Config, depth: u8)
    requires
        fs_total(n) <= u64::MAX,
    ensures
        spec_build(n, cfg, depth).entries is Some ==> spec_build(n, cfg, depth).bytes == n.bytes
            + sum_bytes_v(spec_build(n, cfg, depth).entries.unwrap()),
{
    lemma_fs_total_nonneg(n);
    if spec_expand(n, cfg, depth) {
        let cs = n.children.unwrap()@;
        let d = next_depth(cfg, depth);
        lemma_fs_total_from_nonneg(cs, 0);
        lemma_sums_le(cs, 0, cfg, d);
        let listed = spec_children_acc(Seq::<EntryV>::empty(), cs, 0, cfg, d);
        let asum = aggr_from(cs, 0, cfg, d);
        lemma_children_acc_sum(Seq::<EntryV>::empty(), cs, 0, cfg, d);
        let with_aggr = if asum > 0 {
            listed.push(aggregate_v(asum as u64))
        } else {
            listed
        };
        if asum > 0 {
            lemma_sum_push(listed, aggregate_v(asum as u64));
        }
        lemma_sum_mark_last(with_aggr);
    }
}

/// Law: the individually-listed children of a directory are sorted by
/// non-increasing size. The trailing aggregate keeps that order whenever its
/// sum does not exceed the smallest listed child; an aggregate larger than
/// the smallest listed child still comes last and is excluded here.
pub proof fn lemma_children_sorted(n: FsNode, cfg: Config, depth: u8)
    requires
        fs_total(n) <= u64::MAX,
        spec_expand(n, cfg, depth) ==> ({
            let cs = n.children.unwrap()@;
            let d = next_depth(cfg, depth);
            let listed = spec_children_acc(Seq::<EntryV>::empty(), cs, 0, cfg, d);
            let asum = aggr_from(cs, 0, cfg, d);
            asum == 0 || listed.len() == 0 || asum <= listed[listed.len() - 1].bytes
        }),
    ensures
        spec_build(n, cfg, depth).entries is Some ==> sorted_desc_v(
            spec_build(n, cfg, depth).entries.unwrap(),
        ),
{
    lemma_fs_total_nonneg(n);
    if spec_expand(n, cfg, depth) {
        let cs = n.children.unwrap()@;
        let d = next_depth(cfg, depth);
        lemma_fs_total_from_nonneg(cs, 0);
        lemma_sums_le(cs, 0, cfg, d);
        let listed = spec_children_acc(Seq::<EntryV>::empty(), cs, 0, cfg, d);
        let asum = aggr_from(cs, 0, cfg, d);
        lemma_children_acc_sorted(Seq::<EntryV>::empty(), cs, 0, cfg, d);
        let with_aggr = if asum > 0 {
            listed.push(aggregate_v(asum as u64))
        } else {
            listed
        };
        assert(sorted_desc_v(with_aggr));
        let children = spec_mark_last(with_aggr);
        assert forall|i: int, j: int| 0 <= i <= j < children.len() implies children[i].bytes
            >= children[j].bytes by {
            assert(children[i].bytes == with_aggr[i].bytes);
            assert(children[j].bytes == with_aggr[j].bytes);
        }
    }
}

/// Law: exactly one child of a directory carries the last-sibling flag, and
/// it is the final one.
pub proof fn lemma_last_flag(n: FsNode, cfg: Config, depth: u8)
    ensures
        spec_build(n, cfg, depth).entries is Some ==> ({
            let children = spec_build(n, cfg, depth).entries.unwrap();
            children.len() > 0 ==> children[children.len() - 1].last == true && (forall|k: int|
                0 <= k < children.len() - 1 ==> children[k].last == false)
        }),
{
    if spec_expand(n, cfg, depth) {
        let cs = n.children.unwrap()@;
        let d = next_depth(cfg, depth);
        let listed = spec_children_acc(Seq::<EntryV>::empty(), cs, 0, cfg, d);
        let asum = aggr_from(cs, 0, cfg, d);
        lemma_children_acc_elems(Seq::<EntryV>::empty(), cs, 0, cfg, d);
        let with_aggr = if asum > 0 {
            listed.push(aggregate_v(asum as u64))
        } else {
            listed
        };
        let children = spec_mark_last(with_aggr);
        if children.len() > 0 {
            assert forall|k: int| 0 <= k < children.len() - 1 implies children[k].last
                == false by {
                assert(children[k] == with_aggr[k]);
                if !(asum > 0 && k == listed.len()) {
                    assert(with_aggr[k] == listed[k]);
                    assert(listed.contains(listed[k]));
                }
            }
        }
    }
}

/// Law: with aggregation enabled on an expanded directory, every
/// individually-listed child meets the threshold, and the aggregate child —
/// present exactly when some child fell below the threshold — is last and
/// carries exactly the sum of the children it stands for.
pub proof fn lemma_aggregation(n: FsNode, cfg: Config, depth: u8)
    requires
        fs_total(n) <= u64::MAX,
        cfg.aggr > 0,
        spec_expand(n, cfg, depth),
    ensures
        ({
            let cs = n.children.unwrap()@;
            let d = next_depth(cfg, depth);
            let listed = spec_children_acc(Seq::<EntryV>::empty(), cs, 0, cfg, d);
            let asum = aggr_from(cs, 0, cfg, d);
            let children = spec_build(n, cfg, depth).entries.unwrap();
            &&& asum > 0 ==> children.len() == listed.len() + 1 && children[children.len()
                - 1].bytes == asum && children[children.len() - 1].name == "<aggregated>"@
                && children[children.len() - 1].entries is None
            &&& asum == 0 ==> children.len() == listed.len()
            &&& forall|k: int|
                0 <= k < children.len() - (if asum > 0 { 1int } else { 0int }) ==> children[k].bytes
                    >= cfg.aggr
        }),
{
    lemma_fs_total_nonneg(n);
    let cs = n.children.unwrap()@;
    let d = next_depth(cfg, depth);
    lemma_fs_total_from_nonneg(cs, 0);
    lemma_sums_le(cs, 0, cfg, d);
    let listed = spec_children_acc(Seq::<EntryV>::empty(), cs, 0, cfg, d);
    let asum = aggr_from(cs, 0, cfg, d);
    lemma_children_acc_elems(Seq::<EntryV>::empty(), cs, 0, cfg, d);
    let with_aggr = if asum > 0 {
        listed.push(aggregate_v(asum as u64))
    } else {
        listed
    };
    let children = spec_mark_last(with_aggr);
    assert forall|k: int|
        0 <= k < children.len() - (if asum > 0 { 1int } else { 0int }) implies children[k].bytes
            >= cfg.aggr by {
        assert(children[k].bytes == with_aggr[k].bytes);
        assert(with_aggr[k] == listed[k]);
        assert(listed.contains(listed[k]));
    }
    if asum > 0 {
        assert(children[children.len() - 1] == with_last_v(aggregate_v(asum as u64)));
    }
}

fn sum_bytes_from(cs: &Vec<FsNode>, i: usize) -> (r: u64)
    requires
        fs_total_from(cs@, i as int) <= u64::MAX,
    ensures
        r as int == fs_total_from(cs@, i as int),
    decreases cs@, cs@.len() - i,
{
    if i >= cs.len() {
        0
    } else {
        proof {
            lemma_fs_total_nonneg(cs@[i as int]);
            lemma_fs_total_from_nonneg(cs@, i as int + 1);
        }
        let b = get_bytes(&cs[i]);
        let rest = sum_bytes_from(cs, i + 1);
        b + rest
    }
}

} // verus!
