use vstd::prelude::*;

pub mod bar;
pub mod color;
pub mod entry;
pub mod printer;
pub mod size_fmt;
pub mod strutil;

use crate::color::DictEntry;
use crate::entry::{
    entry_seq_view, entry_view, fs_total, fs_total_from, fs_wf, fs_wf_from, insert_desc,
    lemma_build_bytes_le, lemma_build_wf, lemma_fs_total_from_nonneg, lemma_fs_total_nonneg,
    lemma_insert_desc_props, lemma_wf_list_from_index, mark_last, spec_build, spec_insert_desc,
    spec_mark_last, wf_v, with_last_v, Entry, EntryV, FsNode,
};
use crate::printer::{lines_view, spec_print};

verus! {

/// Outcome of a configuration step: a value, a fatal error message, or a
/// request to exit successfully without building a tree.
pub enum XResult<T, S> {
    XOk(T),
    XErr(S),
    XExit,
}

/// The run's configuration, fixed before the tree is built: the color table,
/// the display depth limit (`depth` matters only when `depth_flag` is set),
/// whether sizes print as raw byte counts, whether sizes are disk usage
/// rather than logical length (applied by the scanner), whether hidden
/// entries are skipped, whether output is plain ASCII without color, the
/// aggregation threshold in bytes (zero disables aggregation), and the exact
/// names to exclude.
pub struct Config {
    pub color_dict: Vec<DictEntry>,
    pub depth: u8,
    pub depth_flag: bool,
    pub bytes_flag: bool,
    pub usage_flag: bool,
    pub hiddn_flag: bool,
    pub ascii_flag: bool,
    pub aggr: u64,
    pub exclude: Vec<String>,
}

/// A decimal digit character.
pub open spec fn is_digit_c(c: char) -> bool {
    48 <= c as int <= 57
}

/// Every character of `s` is a decimal digit.
pub open spec fn all_digits(s: Seq<char>) -> bool {
    forall|i: int| 0 <= i < s.len() ==> is_digit_c(#[trigger] s[i])
}

/// The shape of a threshold argument: one or more decimal digits, optionally
/// followed by a single non-digit unit character.
pub open spec fn is_aggr_form(s: Seq<char>) -> bool {
    (s.len() >= 1 && all_digits(s)) || (s.len() >= 2 && all_digits(s.take(s.len() - 1))
        && !is_digit_c(s[s.len() - 1]))
}

/// The number written by a digit string.
pub open spec fn digits_val(s: Seq<char>) -> int
    decreases s,
{
    if s.len() == 0 {
        0
    } else {
        digits_val(s.drop_last()) * 10 + (s.last() as int - 48)
    }
}

/// The byte multiplier of a unit character: powers of 1024 for the binary
/// unit letters, one for anything else.
pub open spec fn unit_factor(c: char) -> int {
    if c == 'b' || c == 'B' {
        1
    } else if c == 'k' || c == 'K' {
        1024
    } else if c == 'm' || c == 'M' {
        1048576
    } else if c == 'g' || c == 'G' {
        1073741824
    } else if c == 't' || c == 'T' {
        1099511627776
    } else {
        1
    }
}

/// The byte count a well-formed threshold argument denotes.
pub open spec fn aggr_value(s: Seq<char>) -> int
    recommends
        is_aggr_form(s),
{
    if all_digits(s) {
        digits_val(s)
    } else {
        digits_val(s.take(s.len() - 1)) * unit_factor(s[s.len() - 1])
    }
}

proof fn lemma_digits_val_nonneg(s: Seq<char>)
    requires
        all_digits(s),
    ensures
        digits_val(s) >= 0,
    decreases s.len(),
{
    if s.len() > 0 {
        assert(all_digits(s.drop_last())) by {
            assert(forall|i: int|
                0 <= i < s.len() - 1 ==> #[trigger] s.drop_last()[i] == s[i]);
        }
        lemma_digits_val_nonneg(s.drop_last());
    }
}

proof fn lemma_digits_val_grows(s: Seq<char>, j: int)
    requires
        all_digits(s),
        0 <= j <= s.len(),
    ensures
        digits_val(s) >= digits_val(s.take(j)),
    decreases s.len() - j,
{
    if j == s.len() {
        assert(s.take(j) =~= s);
    } else {
        lemma_digits_val_grows(s, j + 1);
        assert(all_digits(s.take(j))) by {
            assert(forall|i: int| 0 <= i < j ==> #[trigger] s.take(j)[i] == s[i]);
        }
        lemma_digits_val_nonneg(s.take(j));
        assert(s.take(j + 1).drop_last() =~= s.take(j));
        assert(s.take(j + 1).last() == s[j]);
        assert(digits_val(s.take(j + 1)) == digits_val(s.take(j)) * 10 + (s[j] as int - 48));
    }
}

fn aggr_err(s: &str) -> (r: XResult<u64, String>)
    ensures
        r is XErr,
        r->XErr_0@ == "invalid argument '"@ + s@ + seq!['\''],
{
    let mut m = String::new();
    proof {
        reveal_strlit("invalid argument '");
        reveal_strlit("'");
        assert("'"@ =~= seq!['\'']);
    }
    m.append("invalid argument '");
    m.append(s);
    m.append("'");
    proof {
        assert(m@ =~= "invalid argument '"@ + s@ + seq!['\'']);
    }
    XResult::XErr(m)
}

/// Parses an aggregation threshold argument: one or more decimal digits
/// followed by at most one non-digit unit character (b, k, m, g or t in
/// either case scale by powers of 1024; any other unit counts as bytes).
/// Returns the threshold in bytes; a malformed argument, or one whose value
/// does not fit in 64 bits, earns the error message. Never requests an exit.
pub fn parse_aggr(s: &str) -> (r: XResult<u64, String>)
    ensures
        is_aggr_form(s@) && aggr_value(s@) <= u64::MAX ==> r is XOk && r->XOk_0 as int
            == aggr_value(s@),
        !(is_aggr_form(s@) && aggr_value(s@) <= u64::MAX) ==> r is XErr && r->XErr_0@
            == "invalid argument '"@ + s@ + seq!['\''],
        !(r is XExit),
{
    let n = s.unicode_len();
    if n == 0 {
        return aggr_err(s);
    }
    let last = s.get_char(n - 1);
    let lu = last as u32;
    let last_is_digit = 48 <= lu && lu <= 57;
    let digits_end = if last_is_digit {
        n
    } else {
        n - 1
    };
    if digits_end == 0 {
        return aggr_err(s);
    }
    let ghost dpart = s@.take(digits_end as int);
    let mut i: usize = 0;
    let mut num: u64 = 0;
    while i < digits_end
        invariant
            n == s@.len(),
            1 <= digits_end <= n,
            i <= digits_end,
            last_is_digit == is_digit_c(s@[n - 1]),
            digits_end == (if last_is_digit {
                n as int
            } else {
                n - 1
            }),
            dpart == s@.take(digits_end as int),
            all_digits(s@.take(i as int)),
            num as int == digits_val(s@.take(i as int)),
        decreases digits_end - i,
    {
        let c = s.get_char(i);
        let u = c as u32;
        if !(48 <= u && u <= 57) {
            proof {
                assert(!is_digit_c(s@[i as int]));
                assert(!all_digits(s@));
                if (i as int) < n - 1 {
                    assert(!all_digits(s@.take(n as int - 1))) by {
                        assert(s@.take(n as int - 1)[i as int] == s@[i as int]);
                    }
                }
                assert(!is_aggr_form(s@));
            }
            return aggr_err(s);
        }
        let d = (u - 48) as u64;
        proof {
            assert(d as int == s@[i as int] as int - 48);
        }
        if num > (u64::MAX - d) / 10 {
            proof {
                assert(10 * (num as int) + d > u64::MAX);
                let pre = s@.take(i as int + 1);
                assert(pre.drop_last() =~= s@.take(i as int));
                assert(pre.last() == s@[i as int]);
                assert(all_digits(pre)) by {
                    assert(forall|k: int|
                        0 <= k < pre.len() ==> #[trigger] pre[k] == s@[k]);
                }
                assert(digits_val(pre) == 10 * (num as int) + d);
                if is_aggr_form(s@) {
                    assert(all_digits(dpart)) by {
                        if last_is_digit {
                            assert(s@.take(n as int) =~= s@);
                        }
                    }
                    assert(dpart.take(i as int + 1) =~= pre);
                    lemma_digits_val_grows(dpart, i as int + 1);
                    assert(digits_val(dpart) > u64::MAX);
                    if all_digits(s@) {
                        assert(s@.take(n as int) =~= s@);
                        assert(aggr_value(s@) > u64::MAX);
                    } else {
                        assert(unit_factor(s@[n - 1]) >= 1);
                        assert(aggr_value(s@) >= digits_val(dpart)) by (nonlinear_arith)
                            requires
                                aggr_value(s@) == digits_val(dpart) * unit_factor(s@[n - 1]),
                                unit_factor(s@[n - 1]) >= 1,
                                digits_val(dpart) >= 0,
                        ;
                    }
                    assert(aggr_value(s@) > u64::MAX);
                }
            }
            return aggr_err(s);
        }
        num = num * 10 + d;
        i = i + 1;
        proof {
            let pre = s@.take(i as int);
            assert(pre.drop_last() =~= s@.take(i as int - 1));
            assert(pre.last() == s@[i as int - 1]);
            assert(all_digits(pre)) by {
                assert(forall|k: int| 0 <= k < pre.len() ==> #[trigger] pre[k] == s@[k]);
            }
        }
    }
    let factor: u64 = if last_is_digit {
        1
    } else {
        if last == 'b' || last == 'B' {
            1
        } else if last == 'k' || last == 'K' {
            1024
        } else if last == 'm' || last == 'M' {
            1048576
        } else if last == 'g' || last == 'G' {
            1073741824
        } else if last == 't' || last == 'T' {
            1099511627776
        } else {
            1
        }
    };
    proof {
        if !last_is_digit {
            assert(factor as int == unit_factor(s@[n - 1]));
        }
        lemma_digits_val_nonneg(dpart);
    }
    if factor > 1 && num > u64::MAX / factor {
        proof {
            assert((num as int) * (factor as int) > u64::MAX) by (nonlinear_arith)
                requires
                    num > u64::MAX / factor,
                    factor > 1,
            ;
            assert(!all_digits(s@));
            assert(aggr_value(s@) == digits_val(dpart) * unit_factor(s@[n - 1]));
            assert(aggr_value(s@) > u64::MAX);
        }
        return aggr_err(s);
    }
    proof {
        if factor > 1 {
            assert((num as int) * (factor as int) <= u64::MAX) by (nonlinear_arith)
                requires
                    num <= u64::MAX / factor,
                    factor > 1,
            ;
        }
    }
    let v = num * factor;
    proof {
        if last_is_digit {
            assert(s@.take(n as int) =~= s@);
            assert(all_digits(s@));
            assert(aggr_value(s@) == v as int);
        } else {
            assert(!all_digits(s@));
            assert(n >= 2);
            assert(is_aggr_form(s@));
            assert(aggr_value(s@) == v as int);
        }
    }
    XResult::XOk(v)
}

/// The per-path trees accumulated into `acc`, each built with the run's
/// starting depth and placed by descending size.
pub open spec fn spec_forest_acc(
    acc: Seq<EntryV>,
    roots: Seq<FsNode>,
    i: int,
    cfg: Config,
    d0: u8,
) -> Seq<EntryV>
    decreases roots.len() - i,
{
    if i < 0 || i >= roots.len() {
        acc
    } else {
        spec_forest_acc(
            spec_insert_desc(acc, spec_build(roots[i], cfg, d0)),
            roots,
            i + 1,
            cfg,
            d0,
        )
    }
}

/// Sum of the built sizes of the per-path trees from position `i` on.
pub open spec fn bsum_from(roots: Seq<FsNode>, i: int, cfg: Config, d0: u8) -> int
    decreases roots.len() - i,
{
    if i < 0 || i >= roots.len() {
        0
    } else {
        spec_build(roots[i], cfg, d0).bytes + bsum_from(roots, i + 1, cfg, d0)
    }
}

/// The tree the run displays: a single path's own tree, or a synthetic
/// collection root whose size is the sum of all paths' trees and whose
/// children are those trees sorted by descending size, the final one flagged
/// as last.
pub open spec fn spec_run_entry(roots: Seq<FsNode>, cfg: Config) -> EntryV {
    let d0 = (cfg.depth + 1) as u8;
    if roots.len() == 1 {
        spec_build(roots[0], cfg, d0)
    } else {
        EntryV {
            name: "<collection>"@,
            bytes: bsum_from(roots, 0, cfg, d0) as u64,
            color: None,
            last: false,
            entries: Some(
                spec_mark_last(spec_forest_acc(Seq::<EntryV>::empty(), roots, 0, cfg, d0)),
            ),
        }
    }
}

proof fn lemma_bsum_le(roots: Seq<FsNode>, i: int, cfg: Config, d0: u8)
    requires
        fs_total_from(roots, i) <= u64::MAX,
    ensures
        0 <= bsum_from(roots, i, cfg, d0) <= fs_total_from(roots, i),
    decreases roots.len() - i,
{
    if 0 <= i < roots.len() {
        lemma_fs_total_nonneg(roots[i]);
        lemma_fs_total_from_nonneg(roots, i + 1);
        lemma_build_bytes_le(roots[i], cfg, d0);
        lemma_bsum_le(roots, i + 1, cfg, d0);
    }
}

proof fn lemma_forest_elems(acc: Seq<EntryV>, roots: Seq<FsNode>, i: int, cfg: Config, d0: u8)
    requires
        fs_total_from(roots, i) <= u64::MAX,
    ensures
        forall|x: EntryV| #[trigger]
            spec_forest_acc(acc, roots, i, cfg, d0).contains(x) ==> acc.contains(x) || (wf_v(x)
                && x.bytes <= bsum_from(roots, i, cfg, d0)),
    decreases roots.len() - i,
{
    let r = spec_forest_acc(acc, roots, i, cfg, d0);
    if 0 <= i < roots.len() {
        let e = spec_build(roots[i], cfg, d0);
        let acc2 = spec_insert_desc(acc, e);
        lemma_fs_total_nonneg(roots[i]);
        lemma_fs_total_from_nonneg(roots, i + 1);
        lemma_build_bytes_le(roots[i], cfg, d0);
        lemma_build_wf(roots[i], cfg, d0);
        lemma_bsum_le(roots, i + 1, cfg, d0);
        lemma_insert_desc_props(acc, e);
        lemma_forest_elems(acc2, roots, i + 1, cfg, d0);
        assert forall|x: EntryV| #[trigger] r.contains(x) implies acc.contains(x) || (wf_v(x)
            && x.bytes <= bsum_from(roots, i, cfg, d0)) by {
            assert(spec_forest_acc(acc2, roots, i + 1, cfg, d0).contains(x));
            if acc2.contains(x) {
                assert(acc.contains(x) || x == e);
            }
        }
    }
}

fn run_forest(
    roots: &Vec<FsNode>,
    i: usize,
    cfg: &Config,
    d0: u8,
    vec: &mut Vec<Entry>,
    bytes: &mut u64,
)
    requires
        fs_wf_from(roots@, i as int),
        *old(bytes) + fs_total_from(roots@, i as int) <= u64::MAX,
        cfg.depth_flag ==> d0 >= 1,
    ensures
        entry_seq_view(final(vec)@) == spec_forest_acc(
            entry_seq_view(old(vec)@),
            roots@,
            i as int,
            *cfg,
            d0,
        ),
        *final(bytes) == *old(bytes) + bsum_from(roots@, i as int, *cfg, d0),
    decreases roots@.len() - i,
{
    if i >= roots.len() {
        return ;
    }
    proof {
        assert(fs_wf(roots@[i as int]) && fs_wf_from(roots@, i as int + 1));
        lemma_fs_total_nonneg(roots@[i as int]);
        lemma_fs_total_from_nonneg(roots@, i as int + 1);
        lemma_build_bytes_le(roots@[i as int], *cfg, d0);
    }
    let e = Entry::new(&roots[i], cfg, d0);
    let eb = e.bytes;
    insert_desc(vec, e);
    *bytes = *bytes + eb;
    run_forest(roots, i + 1, cfg, d0, vec, bytes);
}

/// Builds the display tree for the scanned roots — the single root's own
/// tree, or a collection root over all of them — and renders the full
/// listing for a terminal of width `twidth`.
pub fn run(cfg: &Config, roots: &Vec<FsNode>, twidth: u16) -> (r: Vec<String>)
    requires
        roots@.len() >= 1,
        fs_wf_from(roots@, 0),
        fs_total_from(roots@, 0) <= u64::MAX,
        cfg.depth < 255,
        twidth >= 25,
    ensures
        lines_view(r@) == spec_print(
            spec_run_entry(roots@, *cfg),
            cfg.bytes_flag,
            cfg.ascii_flag,
            twidth as int,
        ),
{
    let d0: u8 = cfg.depth + 1;
    let entry: Entry = if roots.len() == 1 {
        proof {
            assert(fs_wf(roots@[0]) && fs_wf_from(roots@, 1));
            lemma_fs_total_from_nonneg(roots@, 1);
            lemma_fs_total_nonneg(roots@[0]);
        }
        let e = Entry::new(&roots[0], cfg, d0);
        proof {
            lemma_build_wf(roots@[0], *cfg, d0);
        }
        e
    } else {
        let mut entries: Vec<Entry> = Vec::new();
        let mut bytes: u64 = 0;
        run_forest(roots, 0, cfg, d0, &mut entries, &mut bytes);
        let ghost forest = spec_forest_acc(Seq::<EntryV>::empty(), roots@, 0, *cfg, d0);
        proof {
            lemma_bsum_le(roots@, 0, *cfg, d0);
        }
        mark_last(&mut entries);
        let e = Entry {
            name: "<collection>".to_owned(),
            bytes,
            color: None,
            last: false,
            entries: Some(entries),
        };
        proof {
            assert(entry_view(e) =~= spec_run_entry(roots@, *cfg));
            lemma_forest_elems(Seq::<EntryV>::empty(), roots@, 0, *cfg, d0);
            let children = spec_mark_last(forest);
            assert forall|k: int| 0 <= k < children.len() implies children[k].bytes <= e.bytes
                && wf_v(children[k]) by {
                let orig = forest[k];
                assert(children[k] == with_last_v(orig) || children[k] == orig);
                assert(wf_v(with_last_v(orig)) == wf_v(orig));
                assert(forest.contains(orig));
            }
            lemma_wf_list_from_index(children, e.bytes, 0);
            assert(wf_v(entry_view(e)));
        }
        e
    };
    proof {
        assert(entry_view(entry) == spec_run_entry(roots@, *cfg));
        assert(wf_v(entry_view(entry)));
    }
    entry.print(cfg.bytes_flag, cfg.ascii_flag, twidth)
}

} // verus!
