use vstd::prelude::*;

use crate::bar::{chain_desc, fmt_bar, spec_bar};
use crate::entry::{
    entry_seq_view, entry_view, lemma_esv, wf_list_v, wf_v, Entry, EntryV,
};
use crate::size_fmt::{fmt_size_str, spec_size_str};
use crate::strutil::{append_padded_left, append_spaces, pad_left, spaces};

verus! {

/// Display width of a string in terminal columns, a pure function of its
/// characters.
pub uninterp spec fn display_width(s: Seq<char>) -> nat;

/// Relies on unicode_width::UnicodeWidthStr::width: the displayed column
/// width of a string, determined by its characters alone (Unicode width
/// tables, ambiguous characters counted as one column).
#[verifier::external_body]
fn str_display_width(s: &str) -> (r: usize)
    ensures
        r as nat == display_width(s@),
{
    unicode_width::UnicodeWidthStr::width(s)
}

/// The connector glyphs for the ancestors from position `i` on: blank under
/// an ancestor that was itself a last sibling, a continuation bar otherwise.
pub open spec fn connectors(op: Seq<bool>, i: int) -> Seq<char>
    decreases op.len() - i,
{
    if i < 0 || i >= op.len() {
        Seq::<char>::empty()
    } else {
        (if op[i] {
            "   "@
        } else {
            "│  "@
        }) + connectors(op, i + 1)
    }
}

fn connectors_from(op: &Vec<bool>, i: usize) -> (r: String)
    ensures
        r@ == connectors(op@, i as int),
    decreases op@.len() - i,
{
    let mut s = String::new();
    if i >= op.len() {
        return s;
    }
    if op[i] {
        s.append("   ");
    } else {
        s.append("│  ");
    }
    let rest = connectors_from(op, i + 1);
    s.append(rest.as_str());
    proof {
        assert(s@ =~= connectors(op@, i as int));
    }
    s
}

/// The name column of one row: the name truncated to the column, wrapped in
/// a color escape when the entry has a color, padded with spaces when the
/// full name's display width leaves room.
pub open spec fn spec_name_field(c: EntryV, name_width: int) -> Seq<char> {
    let truncated = if c.name.len() > name_width {
        c.name.take(name_width)
    } else {
        c.name
    };
    let colored = match c.color {
        Option::Some(col) => seq!['\u{1b}', '['] + col + seq!['m'] + truncated + seq!['\u{1b}']
            + "[0m"@,
        Option::None => truncated,
    };
    if display_width(c.name) < name_width {
        colored + spaces((name_width - display_width(c.name)) as nat)
    } else {
        colored
    }
}

fn append_name_field(out: &mut String, entry: &Entry, name_width: usize)
    ensures
        final(out)@ == old(out)@ + spec_name_field(entry_view(*entry), name_width as int),
{
    let nlen = entry.name.as_str().unicode_len();
    let truncated: String = if nlen > name_width {
        entry.name.as_str().substring_char(0, name_width).to_owned()
    } else {
        entry.name.clone()
    };
    proof {
        assert(truncated@ =~= (if entry.name@.len() > name_width as int {
            entry.name@.take(name_width as int)
        } else {
            entry.name@
        }));
    }
    match &entry.color {
        Some(col) => {
            proof {
                reveal_strlit("\u{1b}[");
                assert("\u{1b}["@ =~= seq!['\u{1b}', '[']);
                reveal_strlit("m");
                assert("m"@ =~= seq!['m']);
                reveal_strlit("\u{1b}");
                assert("\u{1b}"@ =~= seq!['\u{1b}']);
            }
            out.append("\u{1b}[");
            out.append(col.as_str());
            out.append("m");
            out.append(truncated.as_str());
            out.append("\u{1b}");
            out.append("[0m");
        },
        None => {
            out.append(truncated.as_str());
        },
    }
    let length = str_display_width(entry.name.as_str());
    if length < name_width {
        append_spaces(out, name_width - length);
    }
    proof {
        assert(out@ =~= old(out)@ + spec_name_field(entry_view(*entry), name_width as int));
    }
}

/// One printed row: ancestor connectors, this entry's branch glyph, the name
/// column, the proportional bar over the full ancestor chain, and the size
/// right-aligned to thirteen characters.
pub open spec fn spec_row(
    c: EntryV,
    op: Seq<bool>,
    pv: Seq<u64>,
    bytes_flag: bool,
    ascii_flag: bool,
    bar_width: int,
    name_width: int,
) -> Seq<char> {
    connectors(op, 0) + (if c.last {
        "└─ "@
    } else {
        "├─ "@
    }) + spec_name_field(c, name_width) + seq![' '] + spec_bar(pv.push(c.bytes), bar_width, ascii_flag)
        + seq![' '] + pad_left(spec_size_str(c.bytes, bytes_flag), 13)
}

/// The rows of the siblings from position `i` on: each sibling's block, in
/// order.
pub open spec fn spec_rows_list(
    cs: Seq<EntryV>,
    i: int,
    op: Seq<bool>,
    pv: Seq<u64>,
    bf: bool,
    af: bool,
    bw: int,
    tnw: int,
) -> Seq<Seq<char>>
    decreases cs, cs.len() - i,
{
    if i < 0 || i >= cs.len() {
        Seq::<Seq<char>>::empty()
    } else {
        spec_rows_block(cs[i], op, pv, bf, af, bw, tnw) + spec_rows_list(
            cs,
            i + 1,
            op,
            pv,
            bf,
            af,
            bw,
            tnw,
        )
    }
}

/// The rows of one entry and its subtree: its own row, then its children's
/// rows with the chains extended — or nothing at all when the tree columns no
/// longer leave room for a name.
pub open spec fn spec_rows_block(
    c: EntryV,
    op: Seq<bool>,
    pv: Seq<u64>,
    bf: bool,
    af: bool,
    bw: int,
    tnw: int,
) -> Seq<Seq<char>>
    decreases c, 0int,
{
    let tree_width = 3 * (op.len() + 1);
    if tnw >= tree_width {
        seq![spec_row(c, op, pv, bf, af, bw, tnw - tree_width)] + (if c.entries is Some {
            spec_rows_list(c.entries.unwrap(), 0, op.push(c.last), pv.push(c.bytes), bf, af, bw, tnw)
        } else {
            Seq::<Seq<char>>::empty()
        })
    } else {
        Seq::<Seq<char>>::empty()
    }
}

/// The views of the produced lines.
pub open spec fn lines_view(s: Seq<String>) -> Seq<Seq<char>> {
    s.map_values(|x: String| x@)
}

fn copy_push_bool(v: &Vec<bool>, b: bool) -> (r: Vec<bool>)
    ensures
        r@ == v@.push(b),
{
    let mut r: Vec<bool> = Vec::new();
    let mut i: usize = 0;
    while i < v.len()
        invariant
            i <= v@.len(),
            r@ == v@.take(i as int),
        decreases v@.len() - i,
    {
        r.push(v[i]);
        i = i + 1;
        proof {
            assert(r@ =~= v@.take(i as int));
        }
    }
    proof {
        assert(v@.take(v@.len() as int) =~= v@);
    }
    r.push(b);
    r
}

fn copy_push_u64(v: &Vec<u64>, b: u64) -> (r: Vec<u64>)
    ensures
        r@ == v@.push(b),
{
    let mut r: Vec<u64> = Vec::new();
    let mut i: usize = 0;
    while i < v.len()
        invariant
            i <= v@.len(),
            r@ == v@.take(i as int),
        decreases v@.len() - i,
    {
        r.push(v[i]);
        i = i + 1;
        proof {
            assert(r@ =~= v@.take(i as int));
        }
    }
    proof {
        assert(v@.take(v@.len() as int) =~= v@);
    }
    r.push(b);
    r
}

fn print_children(
    entries: &Vec<Entry>,
    i: usize,
    open_parents: &Vec<bool>,
    parent_vals: &Vec<u64>,
    bytes_flag: bool,
    ascii_flag: bool,
    bar_width: usize,
    tree_name_width: usize,
    out: &mut Vec<String>,
)
    requires
        parent_vals@.len() >= 1,
        chain_desc(parent_vals@),
        wf_list_v(
            entry_seq_view(entries@),
            parent_vals@[parent_vals@.len() - 1],
            i as int,
        ),
        bar_width >= 7,
        3 * (open_parents@.len() + 1) <= tree_name_width + 3,
        tree_name_width + 3 < usize::MAX,
    ensures
        lines_view(final(out)@) == lines_view(old(out)@) + spec_rows_list(
            entry_seq_view(entries@),
            i as int,
            open_parents@,
            parent_vals@,
            bytes_flag,
            ascii_flag,
            bar_width as int,
            tree_name_width as int,
        ),
    decreases entries@, entries@.len() - i,
{
    let ghost cs = entry_seq_view(entries@);
    if i >= entries.len() {
        proof {
            lemma_esv(entries@);
            assert(lines_view(out@) =~= lines_view(out@) + spec_rows_list(
                cs,
                i as int,
                open_parents@,
                parent_vals@,
                bytes_flag,
                ascii_flag,
                bar_width as int,
                tree_name_width as int,
            ));
        }
        return ;
    }
    let entry = &entries[i];
    proof {
        lemma_esv(entries@);
        assert(cs[i as int] == entry_view(entries@[i as int]));
    }
    let ghost mid0 = out@;
    let tree_width = (open_parents.len() + 1) * 3;
    if tree_name_width >= tree_width {
        let name_width = tree_name_width - tree_width;
        let chain = copy_push_u64(parent_vals, entry.bytes);
        proof {
            assert(entry_view(entries@[i as int]).bytes == entries@[i as int].bytes);
            assert forall|k: int| 1 <= k < chain@.len() implies #[trigger] chain@[k] <= chain@[k
                - 1] by {
                if k < parent_vals@.len() {
                    assert(chain@[k] == parent_vals@[k]);
                    assert(chain@[k - 1] == parent_vals@[k - 1]);
                } else {
                    assert(chain@[k] == entry.bytes);
                    assert(chain@[k - 1] == parent_vals@[k - 1]);
                }
            }
        }
        let mut row = connectors_from(open_parents, 0);
        if entry.last {
            proof {
                reveal_strlit("└─ ");
            }
            row.append("└─ ");
        } else {
            proof {
                reveal_strlit("├─ ");
            }
            row.append("├─ ");
        }
        append_name_field(&mut row, entry, name_width);
        proof {
            reveal_strlit(" ");
            assert(" "@ =~= seq![' ']);
        }
        row.append(" ");
        let bar = fmt_bar(&chain, bar_width, ascii_flag);
        row.append(bar.as_str());
        row.append(" ");
        let size_str = fmt_size_str(entry.bytes, bytes_flag);
        append_padded_left(&mut row, size_str.as_str(), 13);
        proof {
            assert(row@ =~= spec_row(
                cs[i as int],
                open_parents@,
                parent_vals@,
                bytes_flag,
                ascii_flag,
                bar_width as int,
                name_width as int,
            ));
        }
        out.push(row);
        proof {
            assert(lines_view(out@) =~= lines_view(mid0) + seq![
                spec_row(
                    cs[i as int],
                    open_parents@,
                    parent_vals@,
                    bytes_flag,
                    ascii_flag,
                    bar_width as int,
                    name_width as int,
                ),
            ]);
        }
        let op2 = copy_push_bool(open_parents, entry.last);
        entry.print_entries(
            op2,
            chain,
            bytes_flag,
            ascii_flag,
            bar_width,
            tree_name_width,
            out,
        );
        proof {
            let c = cs[i as int];
            let block = spec_rows_block(
                c,
                open_parents@,
                parent_vals@,
                bytes_flag,
                ascii_flag,
                bar_width as int,
                tree_name_width as int,
            );
            assert(c.last == entry.last);
            assert(c.bytes == entry.bytes);
            assert(op2@ == open_parents@.push(c.last));
            assert(chain@ == parent_vals@.push(c.bytes));
            assert(block == seq![
                spec_row(
                    c,
                    open_parents@,
                    parent_vals@,
                    bytes_flag,
                    ascii_flag,
                    bar_width as int,
                    name_width as int,
                ),
            ] + (if c.entries is Some {
                spec_rows_list(
                    c.entries.unwrap(),
                    0,
                    op2@,
                    chain@,
                    bytes_flag,
                    ascii_flag,
                    bar_width as int,
                    tree_name_width as int,
                )
            } else {
                Seq::<Seq<char>>::empty()
            }));
            assert(lines_view(out@) =~= lines_view(mid0) + block);
        }
    } else {
        proof {
            let block = spec_rows_block(
                cs[i as int],
                open_parents@,
                parent_vals@,
                bytes_flag,
                ascii_flag,
                bar_width as int,
                tree_name_width as int,
            );
            assert(block =~= Seq::<Seq<char>>::empty());
            assert(lines_view(out@) =~= lines_view(mid0) + block);
        }
    }
    print_children(
        entries,
        i + 1,
        open_parents,
        parent_vals,
        bytes_flag,
        ascii_flag,
        bar_width,
        tree_name_width,
        out,
    );
    proof {
        assert(lines_view(out@) =~= lines_view(old(out)@) + spec_rows_list(
            cs,
            i as int,
            open_parents@,
            parent_vals@,
            bytes_flag,
            ascii_flag,
            bar_width as int,
            tree_name_width as int,
        ));
    }
}

impl Entry {
    /// Appends one output row per visible entry of this entry's subtree,
    /// depth-first: connectors, name column, proportional bar over the
    /// ancestor chain, and the formatted size.
    pub fn print_entries(
        &self,
        open_parents: Vec<bool>,
        parent_vals: Vec<u64>,
        bytes_flag: bool,
        ascii_flag: bool,
        bar_width: usize,
        tree_name_width: usize,
        out: &mut Vec<String>,
    )
        requires
            wf_v(entry_view(*self)),
            parent_vals@.len() >= 1,
            chain_desc(parent_vals@),
            parent_vals@[parent_vals@.len() - 1] == self.bytes,
            bar_width >= 7,
            3 * (open_parents@.len() + 1) <= tree_name_width + 3,
            tree_name_width + 3 < usize::MAX,
        ensures
            lines_view(final(out)@) == lines_view(old(out)@) + (if entry_view(
                *self,
            ).entries is Some {
                spec_rows_list(
                    entry_view(*self).entries.unwrap(),
                    0,
                    open_parents@,
                    parent_vals@,
                    bytes_flag,
                    ascii_flag,
                    bar_width as int,
                    tree_name_width as int,
                )
            } else {
                Seq::<Seq<char>>::empty()
            }),
        decreases *self, 0int,
    {
        match &self.entries {
            Some(entries) => {
                print_children(
                    entries,
                    0,
                    &open_parents,
                    &parent_vals,
                    bytes_flag,
                    ascii_flag,
                    bar_width,
                    tree_name_width,
                    out,
                );
            },
            None => {
                proof {
                    assert(lines_view(out@) =~= lines_view(out@) + Seq::<Seq<char>>::empty());
                }
            },
        }
    }

    /// The whole rendered listing: a header line with the root's name and
    /// size, then one row per visible entry. The bar column gets 75 percent
    /// and the name column 25 percent of what the terminal width leaves
    /// beside the 15-column size field.
    pub fn print(&self, bytes_flag: bool, ascii_flag: bool, twidth: u16) -> (r: Vec<String>)
        requires
            wf_v(entry_view(*self)),
            twidth >= 25,
        ensures
            lines_view(r@) == spec_print(entry_view(*self), bytes_flag, ascii_flag, twidth as int),
    {
        let var_width: u16 = twidth - 15;
        let bar_width: usize = var_width as usize * 75 / 100;
        let tree_name_width: usize = var_width as usize * 25 / 100;
        proof {
            assert(bar_width >= 7) by (nonlinear_arith)
                requires
                    bar_width == var_width as int * 75 / 100,
                    var_width >= 10,
            ;
        }
        let mut header = String::new();
        proof {
            reveal_strlit("[ ");
            reveal_strlit(" ");
            reveal_strlit(" ]");
            assert(" "@ =~= seq![' ']);
        }
        header.append("[ ");
        header.append(self.name.as_str());
        header.append(" ");
        let ss = fmt_size_str(self.bytes, bytes_flag);
        header.append(ss.as_str());
        header.append(" ]");
        let mut out: Vec<String> = Vec::new();
        out.push(header);
        let open_parents: Vec<bool> = Vec::new();
        let mut parent_vals: Vec<u64> = Vec::new();
        parent_vals.push(self.bytes);
        proof {
            assert(parent_vals@ =~= seq![self.bytes]);
        }
        self.print_entries(
            open_parents,
            parent_vals,
            bytes_flag,
            ascii_flag,
            bar_width,
            tree_name_width,
            &mut out,
        );
        proof {
            assert(lines_view(out@) =~= spec_print(
                entry_view(*self),
                bytes_flag,
                ascii_flag,
                twidth as int,
            ));
        }
        out
    }
}

/// The whole listing of a tree for a terminal of width `twidth`: the header
/// line, then the rows of the root's children.
pub open spec fn spec_print(root: EntryV, bf: bool, af: bool, twidth: int) -> Seq<Seq<char>> {
    let var_width = twidth - 15;
    let bw = var_width * 75 / 100;
    let tnw = var_width * 25 / 100;
    let header = "[ "@ + root.name + seq![' '] + spec_size_str(root.bytes, bf) + " ]"@;
    seq![header] + (if root.entries is Some {
        spec_rows_list(root.entries.unwrap(), 0, Seq::<bool>::empty(), seq![root.bytes], bf, af, bw, tnw)
    } else {
        Seq::<Seq<char>>::empty()
    })
}

} // verus!
