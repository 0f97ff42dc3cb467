use vstd::prelude::*;

use crate::strutil::{append_dec, dec_digits, pad_left};

verus! {

/// The ordered fill glyphs: five shading levels in color mode, two in ASCII
/// mode, from empty to solid.
pub open spec fn palette(ascii: bool) -> Seq<char> {
    if ascii {
        seq![' ', '#']
    } else {
        seq![' ', '░', '▒', '▓', '█']
    }
}

/// The glyph index after crossing one more nesting boundary: capped at the
/// solid glyph once the deepest level or the palette end is reached.
pub open spec fn cap_chr(chr: int, levels: int, plen: int) -> int {
    if chr == levels || chr >= plen {
        plen - 1
    } else {
        chr
    }
}

/// The cells of the bar from column `x` on. Each level owns the columns from
/// its boundary `pos` rightward; crossing a boundary recomputes the next
/// level's length as `part * bars / total` (zero under a zero-sized parent)
/// and advances the glyph.
pub open spec fn bar_cells(
    sizes: Seq<u64>,
    w: int,
    x: int,
    idx: int,
    total: int,
    part: int,
    bars: int,
    pos: int,
    chr: int,
    ascii: bool,
) -> Seq<char>
    decreases w - x,
{
    if x >= w {
        Seq::<char>::empty()
    } else if x >= pos {
        let total2 = part;
        let part2: int = if 0 <= idx < sizes.len() {
            sizes[idx] as int
        } else {
            0
        };
        let bars2: int = if total2 == 0 {
            0
        } else {
            part2 * bars / total2
        };
        let pos2 = w - bars2;
        let chr2 = cap_chr(chr + 1, sizes.len() - 1, palette(ascii).len() as int);
        seq![palette(ascii)[chr2]] + bar_cells(
            sizes,
            w,
            x + 1,
            idx + 1,
            total2,
            part2,
            bars2,
            pos2,
            chr2,
            ascii,
        )
    } else {
        seq![palette(ascii)[chr]] + bar_cells(sizes, w, x + 1, idx, total, part, bars, pos, chr, ascii)
    }
}

/// The body of the bar: `w` cells driven by the ancestor size chain, the
/// first level's length being the child's share of the root across the full
/// width.
pub open spec fn spec_bar_body(sizes: Seq<u64>, w: int, ascii: bool) -> Seq<char>
    recommends
        sizes.len() >= 2,
{
    let total = sizes[0] as int;
    let part = sizes[1] as int;
    let bars: int = if total == 0 {
        0
    } else {
        part * w / total
    };
    bar_cells(sizes, w, 0, 2, total, part, bars, w - bars, 0, ascii)
}

/// The displayed entry's share of its immediate parent, in whole percent;
/// zero under a zero-sized parent.
pub open spec fn spec_pct(sizes: Seq<u64>) -> int
    recommends
        sizes.len() >= 2,
{
    let parent = sizes[sizes.len() - 2] as int;
    if parent == 0 {
        0
    } else {
        sizes[sizes.len() - 1] as int * 100 / parent
    }
}

/// The whole bar column: the body between two border glyphs, then the
/// percentage right-aligned to three characters.
pub open spec fn spec_bar(sizes: Seq<u64>, width: int, ascii: bool) -> Seq<char> {
    seq!['│'] + spec_bar_body(sizes, width - 7, ascii) + seq!['│', ' '] + pad_left(
        dec_digits(spec_pct(sizes) as nat),
        3,
    ) + seq!['%']
}

/// Ancestor size chains never grow along the chain.
pub open spec fn chain_desc(s: Seq<u64>) -> bool {
    forall|i: int| 1 <= i < s.len() ==> #[trigger] s[i] <= s[i - 1]
}

fn ratio_scale(part: u64, total: u64, cap: usize) -> (r: usize)
    requires
        part <= total,
    ensures
        r as int == (if total == 0 {
            0int
        } else {
            part as int * cap as int / total as int
        }),
        r <= cap,
{
    if total == 0 {
        0
    } else {
        proof {
            assert(part as int * cap as int <= u128::MAX) by (nonlinear_arith)
                requires
                    part <= u64::MAX,
                    cap <= u64::MAX,
            ;
        }
        let p: u128 = (part as u128) * (cap as u128);
        let q: u128 = p / (total as u128);
        proof {
            assert(p as int == part as int * cap as int);
            assert(q <= cap) by (nonlinear_arith)
                requires
                    q == p / (total as u128),
                    p as int == part as int * cap as int,
                    part <= total,
                    total > 0,
            ;
        }
        q as usize
    }
}

fn append_glyph(out: &mut String, chr: usize, ascii: bool)
    requires
        chr < palette(ascii).len(),
    ensures
        final(out)@ == old(out)@ + seq![palette(ascii)[chr as int]],
{
    if ascii {
        if chr == 0 {
            proof {
                reveal_strlit(" ");
                assert(" "@ =~= seq![palette(true)[0]]);
            }
            out.append(" ");
        } else {
            proof {
                reveal_strlit("#");
                assert("#"@ =~= seq![palette(true)[1]]);
            }
            out.append("#");
        }
    } else {
        if chr == 0 {
            proof {
                reveal_strlit(" ");
                assert(" "@ =~= seq![palette(false)[0]]);
            }
            out.append(" ");
        } else if chr == 1 {
            proof {
                reveal_strlit("░");
                assert("░"@ =~= seq![palette(false)[1]]);
            }
            out.append("░");
        } else if chr == 2 {
            proof {
                reveal_strlit("▒");
                assert("▒"@ =~= seq![palette(false)[2]]);
            }
            out.append("▒");
        } else if chr == 3 {
            proof {
                reveal_strlit("▓");
                assert("▓"@ =~= seq![palette(false)[3]]);
            }
            out.append("▓");
        } else {
            proof {
                reveal_strlit("█");
                assert("█"@ =~= seq![palette(false)[4]]);
            }
            out.append("█");
        }
    }
}

/// Renders one proportional bar line for an ancestor size chain: a bar of
/// `width - 7` cells between border glyphs where each nesting level fills
/// its share of its parent's region, followed by the entry's share of its
/// immediate parent in percent. A zero-sized parent renders as an empty
/// share rather than failing.
pub fn fmt_bar(bytes: &Vec<u64>, width: usize, ascii_flag: bool) -> (r: String)
    requires
        bytes@.len() >= 2,
        width >= 7,
        chain_desc(bytes@),
    ensures
        r@ == spec_bar(bytes@, width as int, ascii_flag),
{
    let w = width - 7;
    let mut out = String::new();
    proof {
        reveal_strlit("│");
        assert("│"@ =~= seq!['│']);
    }
    out.append("│");
    let mut total: u64 = bytes[0];
    let mut part: u64 = bytes[1];
    let mut bars: usize = ratio_scale(part, total, w);
    let mut pos: usize = w - bars;
    let mut idx: usize = 2;
    let mut chr: usize = 0;
    let levels = bytes.len() - 1;
    let plen: usize = if ascii_flag {
        2
    } else {
        5
    };
    let mut x: usize = 0;
    while x < w
        invariant
            bytes@.len() >= 2,
            chain_desc(bytes@),
            w == width - 7,
            width >= 7,
            plen == palette(ascii_flag).len(),
            levels == bytes@.len() - 1,
            x <= w,
            2 <= idx <= 2 + x,
            chr < plen,
            bars <= w,
            pos == w - bars,
            part <= total,
            idx <= bytes@.len() ==> part == bytes@[idx - 1],
            idx > bytes@.len() ==> part == 0,
            out@ + bar_cells(
                bytes@,
                w as int,
                x as int,
                idx as int,
                total as int,
                part as int,
                bars as int,
                pos as int,
                chr as int,
                ascii_flag,
            ) == seq!['│'] + spec_bar_body(bytes@, w as int, ascii_flag),
        decreases w - x,
    {
        let ghost pre_state = bar_cells(
            bytes@,
            w as int,
            x as int,
            idx as int,
            total as int,
            part as int,
            bars as int,
            pos as int,
            chr as int,
            ascii_flag,
        );
        if x >= pos {
            total = part;
            part = if idx < bytes.len() {
                bytes[idx]
            } else {
                0
            };
            bars = ratio_scale(part, total, bars);
            pos = w - bars;
            idx = idx + 1;
            chr = chr + 1;
            if chr == levels || chr >= plen {
                chr = plen - 1;
            }
        }
        append_glyph(&mut out, chr, ascii_flag);
        x = x + 1;
        proof {
            assert(pre_state == seq![palette(ascii_flag)[chr as int]] + bar_cells(
                bytes@,
                w as int,
                x as int,
                idx as int,
                total as int,
                part as int,
                bars as int,
                pos as int,
                chr as int,
                ascii_flag,
            ));
            assert(out@ + bar_cells(
                bytes@,
                w as int,
                x as int,
                idx as int,
                total as int,
                part as int,
                bars as int,
                pos as int,
                chr as int,
                ascii_flag,
            ) =~= seq!['│'] + spec_bar_body(bytes@, w as int, ascii_flag));
        }
    }
    proof {
        assert(out@ =~= seq!['│'] + spec_bar_body(bytes@, w as int, ascii_flag));
        reveal_strlit("│ ");
        assert("│ "@ =~= seq!['│', ' ']);
    }
    out.append("│ ");
    let parent: u64 = bytes[bytes.len() - 2];
    let child: u64 = bytes[bytes.len() - 1];
    let pct: u64 = if parent == 0 {
        0
    } else {
        proof {
            assert((child as int * 100) / (parent as int) <= 100) by (nonlinear_arith)
                requires
                    child <= parent,
                    parent > 0,
            ;
        }
        (((child as u128) * 100) / (parent as u128)) as u64
    };
    proof {
        assert(pct as int == spec_pct(bytes@));
    }
    let mut num = String::new();
    append_dec(&mut num, pct);
    crate::strutil::append_padded_left(&mut out, num.as_str(), 3);
    proof {
        reveal_strlit("%");
        assert("%"@ =~= seq!['%']);
    }
    out.append("%");
    proof {
        assert(out@ =~= spec_bar(bytes@, width as int, ascii_flag));
    }
    out
}

} // verus!
