//! The pen an engine paints with, spelled back as SGR: the parameter string a DECRQSS report
//! carries, and the full SGR that restores a saved pen exactly — the attributes a push named taken
//! from the pen it saved, everything else from the current one.
use vstd::prelude::*;
use crate::bytes::{append, decimal, push_decimal};

verus! {

/// The engine's index for its default foreground colour among the named colours.
pub const NAMED_FOREGROUND: u16 = 256;
/// The engine's index for its default background colour among the named colours.
pub const NAMED_BACKGROUND: u16 = 257;

/// A pen colour: one of the engine's named colours by index (0-15 the palette's first sixteen,
/// 256 on the default roles), a palette index, or a truecolor value.
#[derive(Debug, Clone, Copy, PartialEq, Eq)]
pub enum PenColor {
    Named(u16),
    Indexed(u8),
    Spec(u8, u8, u8),
}

/// The attributes a pen carries.
#[derive(Debug, Clone, Copy, PartialEq, Eq, Default)]
pub struct PenFlags {
    pub bold: bool,
    pub dim: bool,
    pub italic: bool,
    pub underline: bool,
    pub double_underline: bool,
    pub undercurl: bool,
    pub dotted_underline: bool,
    pub dashed_underline: bool,
    pub inverse: bool,
    pub hidden: bool,
    pub strikeout: bool,
}

/// A pen: its attributes, its two colours, and the underline's own colour if it has one.
#[derive(Debug, Clone, Copy, PartialEq, Eq)]
pub struct Pen {
    pub flags: PenFlags,
    pub fg: PenColor,
    pub bg: PenColor,
    pub underline_color: Option<PenColor>,
}

/// Which attributes an XTPUSHSGR saved, and so which a pop puts back.
#[derive(Debug, Clone, Copy, PartialEq, Eq, Default)]
pub struct SaveMask {
    pub bold: bool,
    pub faint: bool,
    pub italic: bool,
    pub underline: bool,
    pub doubly_underlined: bool,
    pub inverse: bool,
    pub invisible: bool,
    pub crossed_out: bool,
    pub foreground: bool,
    pub background: bool,
}

/// SGR codes joined with `;`.
pub open spec fn joined(codes: Seq<Seq<u8>>) -> Seq<u8>
    decreases codes.len(),
{
    if codes.len() == 0 {
        Seq::empty()
    } else if codes.len() == 1 {
        codes[0]
    } else {
        joined(codes.drop_last()) + seq![0x3bu8] + codes.last()
    }
}

pub open spec fn push_if(codes: Seq<Seq<u8>>, present: bool, code: Seq<u8>) -> Seq<Seq<u8>> {
    if present {
        codes.push(code)
    } else {
        codes
    }
}

pub open spec fn push_some(codes: Seq<Seq<u8>>, code: Option<Seq<u8>>) -> Seq<Seq<u8>> {
    match code {
        Some(c) => codes.push(c),
        None => codes,
    }
}

/// One channel of a pen as SGR: named 0-7 as 30-37 (40-47 for the background), bright 8-15 as
/// 90-97 (100-107), a palette index as `38;5;n` (`48;5;n`), a truecolor value as `38;2;r;g;b`
/// (`48;2;r;g;b`); `None` for the default roles and every other named colour, which a leading reset
/// already covers.
pub open spec fn sgr_color_code(color: PenColor, is_background: bool) -> Option<Seq<u8>> {
    let base: nat = if is_background {
        40
    } else {
        30
    };
    let bright: nat = if is_background {
        100
    } else {
        90
    };
    let extended: nat = if is_background {
        48
    } else {
        38
    };
    match color {
        PenColor::Named(index) => if index == NAMED_FOREGROUND || index == NAMED_BACKGROUND {
            None
        } else if index <= 7 {
            Some(decimal(base + index as nat))
        } else if index <= 15 {
            Some(decimal(bright + (index - 8) as nat))
        } else {
            None
        },
        PenColor::Indexed(index) => Some(decimal(extended) + seq![0x3bu8, 0x35u8, 0x3bu8] + decimal(index as nat)),
        PenColor::Spec(r, g, b) => Some(
            decimal(extended) + seq![0x3bu8, 0x32u8, 0x3bu8] + decimal(r as nat) + seq![0x3bu8] + decimal(g as nat)
                + seq![0x3bu8] + decimal(b as nat),
        ),
    }
}

/// The underline's own colour as SGR 58: a named colour by its palette index when it has one,
/// `None` for a role; a palette index as `58;5;n`; a truecolor value as `58;2;r;g;b`.
pub open spec fn underline_color_code(color: PenColor) -> Option<Seq<u8>> {
    match color {
        PenColor::Named(index) => if index <= 15 {
            Some(seq![0x35u8, 0x38u8, 0x3bu8, 0x35u8, 0x3bu8] + decimal(index as nat))
        } else {
            None
        },
        PenColor::Indexed(index) => Some(seq![0x35u8, 0x38u8, 0x3bu8, 0x35u8, 0x3bu8] + decimal(index as nat)),
        PenColor::Spec(r, g, b) => Some(
            seq![0x35u8, 0x38u8, 0x3bu8, 0x32u8, 0x3bu8] + decimal(r as nat) + seq![0x3bu8] + decimal(
                g as nat,
            ) + seq![0x3bu8] + decimal(b as nat),
        ),
    }
}

/// The codes a DECRQSS report lists: `0`, then one per attribute set — a double underline as `21`
/// and every other underline as a plain `4` — then the two colours.
pub open spec fn report_codes(pen: Pen) -> Seq<Seq<u8>> {
    let f = pen.flags;
    let c = seq![seq![0x30u8]];
    let c = push_if(c, f.bold, seq![0x31u8]);
    let c = push_if(c, f.dim, seq![0x32u8]);
    let c = push_if(c, f.italic, seq![0x33u8]);
    let c = if f.double_underline {
        c.push(seq![0x32u8, 0x31u8])
    } else {
        push_if(c, f.underline || f.undercurl || f.dotted_underline || f.dashed_underline, seq![0x34u8])
    };
    let c = push_if(c, f.inverse, seq![0x37u8]);
    let c = push_if(c, f.hidden, seq![0x38u8]);
    let c = push_if(c, f.strikeout, seq![0x39u8]);
    let c = push_some(c, sgr_color_code(pen.fg, false));
    push_some(c, sgr_color_code(pen.bg, true))
}

/// The underline code a restore writes: one underline at a time, the double first, then the curl,
/// the dotted and the dashed in their own spellings, then the plain one.
pub open spec fn restore_underline(f: PenFlags) -> Option<Seq<u8>> {
    if f.double_underline {
        Some(seq![0x32u8, 0x31u8])
    } else if f.undercurl {
        Some(seq![0x34u8, 0x3au8, 0x33u8])
    } else if f.dotted_underline {
        Some(seq![0x34u8, 0x3au8, 0x34u8])
    } else if f.dashed_underline {
        Some(seq![0x34u8, 0x3au8, 0x35u8])
    } else if f.underline {
        Some(seq![0x34u8])
    } else {
        None
    }
}

/// The codes a restore lists: `0`, every attribute set, the two colours, and the underline colour.
pub open spec fn restore_codes(pen: Pen) -> Seq<Seq<u8>> {
    let f = pen.flags;
    let c = seq![seq![0x30u8]];
    let c = push_if(c, f.bold, seq![0x31u8]);
    let c = push_if(c, f.dim, seq![0x32u8]);
    let c = push_if(c, f.italic, seq![0x33u8]);
    let c = push_some(c, restore_underline(f));
    let c = push_if(c, f.inverse, seq![0x37u8]);
    let c = push_if(c, f.hidden, seq![0x38u8]);
    let c = push_if(c, f.strikeout, seq![0x39u8]);
    let c = push_some(c, sgr_color_code(pen.fg, false));
    let c = push_some(c, sgr_color_code(pen.bg, true));
    push_some(
        c,
        match pen.underline_color {
            Some(color) => underline_color_code(color),
            None => None,
        },
    )
}

/// The SGR that restores a pen exactly: `CSI 0 ; … m`.
pub open spec fn restore_bytes(pen: Pen) -> Seq<u8> {
    seq![0x1bu8, 0x5bu8] + joined(restore_codes(pen)) + seq![0x6du8]
}

/// The pen a pop restores: each attribute the push named taken from the saved pen — the five
/// underline kinds moving together — and everything else from the current one.
pub open spec fn merged(current: Pen, saved: Pen, mask: SaveMask) -> Pen {
    let cf = current.flags;
    let sf = saved.flags;
    let underlines = mask.underline || mask.doubly_underlined;
    Pen {
        flags: PenFlags {
            bold: if mask.bold {
                sf.bold
            } else {
                cf.bold
            },
            dim: if mask.faint {
                sf.dim
            } else {
                cf.dim
            },
            italic: if mask.italic {
                sf.italic
            } else {
                cf.italic
            },
            underline: if underlines {
                sf.underline
            } else {
                cf.underline
            },
            double_underline: if underlines {
                sf.double_underline
            } else {
                cf.double_underline
            },
            undercurl: if underlines {
                sf.undercurl
            } else {
                cf.undercurl
            },
            dotted_underline: if underlines {
                sf.dotted_underline
            } else {
                cf.dotted_underline
            },
            dashed_underline: if underlines {
                sf.dashed_underline
            } else {
                cf.dashed_underline
            },
            inverse: if mask.inverse {
                sf.inverse
            } else {
                cf.inverse
            },
            hidden: if mask.invisible {
                sf.hidden
            } else {
                cf.hidden
            },
            strikeout: if mask.crossed_out {
                sf.strikeout
            } else {
                cf.strikeout
            },
        },
        fg: if mask.foreground {
            saved.fg
        } else {
            current.fg
        },
        bg: if mask.background {
            saved.bg
        } else {
            current.bg
        },
        underline_color: if underlines {
            saved.underline_color
        } else {
            current.underline_color
        },
    }
}

pub open spec fn codes_view(codes: Seq<Vec<u8>>) -> Seq<Seq<u8>> {
    codes.map_values(|c: Vec<u8>| c@)
}

fn single(byte: u8) -> (code: Vec<u8>)
    ensures
        code@ == seq![byte],
{
    let mut code: Vec<u8> = Vec::new();
    code.push(byte);
    assert(code@ =~= seq![byte]);
    code
}

fn bytes_of(bytes: &[u8]) -> (code: Vec<u8>)
    ensures
        code@ == bytes@,
{
    let mut code: Vec<u8> = Vec::new();
    append(&mut code, bytes);
    code
}

fn add_code(codes: &mut Vec<Vec<u8>>, code: Vec<u8>)
    ensures
        codes_view(final(codes)@) == codes_view(old(codes)@).push(code@),
{
    let ghost before = codes_view(codes@);
    codes.push(code);
    assert(codes_view(codes@) =~= before.push(code@));
}

fn add_some(codes: &mut Vec<Vec<u8>>, code: Option<Vec<u8>>)
    ensures
        codes_view(final(codes)@) == push_some(
            codes_view(old(codes)@),
            match code {
                Some(c) => Some(c@),
                None => None,
            },
        ),
{
    match code {
        Some(c) => add_code(codes, c),
        None => {},
    }
}

fn join(codes: &Vec<Vec<u8>>) -> (out: Vec<u8>)
    ensures
        out@ == joined(codes_view(codes@)),
{
    let ghost views = codes_view(codes@);
    let mut out: Vec<u8> = Vec::new();
    let mut k: usize = 0;
    while k < codes.len()
        invariant
            k <= codes@.len(),
            views == codes_view(codes@),
            out@ == joined(views.take(k as int)),
        decreases codes@.len() - k,
    {
        assert(views.take(k + 1).drop_last() =~= views.take(k as int));
        assert(views[k as int] == codes@[k as int]@);
        if k > 0 {
            out.push(0x3b);
        } else {
            assert(views.take(1)[0] == views[0]);
        }
        append(&mut out, codes[k].as_slice());
        assert(out@ =~= joined(views.take(k + 1)));
        k = k + 1;
    }
    assert(views.take(views.len() as int) =~= views);
    out
}

fn number(n: u64) -> (code: Vec<u8>)
    ensures
        code@ == decimal(n as nat),
{
    let mut code: Vec<u8> = Vec::new();
    push_decimal(&mut code, n);
    assert(code@ =~= decimal(n as nat));
    code
}

fn extended_color(lead: u64, color: PenColor) -> (code: Vec<u8>)
    requires
        !(color is Named),
    ensures
        code@ == match color {
            PenColor::Indexed(index) => decimal(lead as nat) + seq![0x3bu8, 0x35u8, 0x3bu8] + decimal(index as nat),
            PenColor::Spec(r, g, b) => decimal(lead as nat) + seq![0x3bu8, 0x32u8, 0x3bu8] + decimal(r as nat)
                + seq![0x3bu8] + decimal(g as nat) + seq![0x3bu8] + decimal(b as nat),
            PenColor::Named(_) => Seq::empty(),
        },
{
    let mut code = number(lead);
    let ghost start = code@;
    match color {
        PenColor::Indexed(index) => {
            code.push(0x3b);
            code.push(0x35);
            code.push(0x3b);
            push_decimal(&mut code, index as u64);
            assert(code@ =~= start + seq![0x3bu8, 0x35u8, 0x3bu8] + decimal(index as nat));
        },
        PenColor::Spec(r, g, b) => {
            code.push(0x3b);
            code.push(0x32);
            code.push(0x3b);
            push_decimal(&mut code, r as u64);
            code.push(0x3b);
            push_decimal(&mut code, g as u64);
            code.push(0x3b);
            push_decimal(&mut code, b as u64);
            assert(code@ =~= start + seq![0x3bu8, 0x32u8, 0x3bu8] + decimal(r as nat) + seq![0x3bu8]
                + decimal(g as nat) + seq![0x3bu8] + decimal(b as nat));
        },
        PenColor::Named(_) => {},
    }
    code
}

/// One channel of a pen as its SGR colour codes, or `None` when it is a default role.
pub fn sgr_color(color: PenColor, is_background: bool) -> (code: Option<Vec<u8>>)
    ensures
        match code {
            Some(c) => sgr_color_code(color, is_background) == Some(c@),
            None => sgr_color_code(color, is_background) is None,
        },
{
    let base: u64 = if is_background {
        40
    } else {
        30
    };
    let bright: u64 = if is_background {
        100
    } else {
        90
    };
    let extended: u64 = if is_background {
        48
    } else {
        38
    };
    match color {
        PenColor::Named(index) => {
            if index == NAMED_FOREGROUND || index == NAMED_BACKGROUND {
                None
            } else if index <= 7 {
                Some(number(base + index as u64))
            } else if index <= 15 {
                Some(number(bright + (index - 8) as u64))
            } else {
                None
            }
        },
        _ => Some(extended_color(extended, color)),
    }
}

/// The underline's own colour as SGR 58, or `None` when it is a role rather than a colour.
pub fn sgr_underline_color(color: PenColor) -> (code: Option<Vec<u8>>)
    ensures
        match code {
            Some(c) => underline_color_code(color) == Some(c@),
            None => underline_color_code(color) is None,
        },
{
    match color {
        PenColor::Named(index) => {
            if index <= 15 {
                let mut code: Vec<u8> = vec![0x35, 0x38, 0x3b, 0x35, 0x3b];
                let ghost start = code@;
                push_decimal(&mut code, index as u64);
                assert(code@ =~= seq![0x35u8, 0x38u8, 0x3bu8, 0x35u8, 0x3bu8] + decimal(index as nat));
                Some(code)
            } else {
                None
            }
        },
        _ => {
            let code = extended_color(58, color);
            assert(decimal(58) =~= seq![0x35u8, 0x38u8]) by {
                reveal_with_fuel(decimal, 2);
            }
            Some(code)
        },
    }
}

/// The pen as the parameter string of a DECRQSS report: `0`, then only what is set, so a fresh
/// pen reports `0` and bold red `0;1;31`.
pub fn pen_sgr(pen: &Pen) -> (report: Vec<u8>)
    ensures
        report@ == joined(report_codes(*pen)),
{
    let f = pen.flags;
    let mut codes: Vec<Vec<u8>> = Vec::new();
    add_code(&mut codes, single(0x30));
    let ghost c = seq![seq![0x30u8]];
    assert(codes_view(codes@) =~= c);
    if f.bold {
        add_code(&mut codes, single(0x31));
    }
    proof { c = push_if(c, f.bold, seq![0x31u8]); }
    assert(codes_view(codes@) =~= c);
    if f.dim {
        add_code(&mut codes, single(0x32));
    }
    proof { c = push_if(c, f.dim, seq![0x32u8]); }
    assert(codes_view(codes@) =~= c);
    if f.italic {
        add_code(&mut codes, single(0x33));
    }
    proof { c = push_if(c, f.italic, seq![0x33u8]); }
    assert(codes_view(codes@) =~= c);
    if f.double_underline {
        add_code(&mut codes, bytes_of(&[0x32, 0x31]));
    } else if f.underline || f.undercurl || f.dotted_underline || f.dashed_underline {
        add_code(&mut codes, single(0x34));
    }
    proof {
        c = if f.double_underline {
            c.push(seq![0x32u8, 0x31u8])
        } else {
            push_if(c, f.underline || f.undercurl || f.dotted_underline || f.dashed_underline, seq![0x34u8])
        };
    }
    assert(codes_view(codes@) =~= c);
    if f.inverse {
        add_code(&mut codes, single(0x37));
    }
    proof { c = push_if(c, f.inverse, seq![0x37u8]); }
    assert(codes_view(codes@) =~= c);
    if f.hidden {
        add_code(&mut codes, single(0x38));
    }
    proof { c = push_if(c, f.hidden, seq![0x38u8]); }
    assert(codes_view(codes@) =~= c);
    if f.strikeout {
        add_code(&mut codes, single(0x39));
    }
    proof { c = push_if(c, f.strikeout, seq![0x39u8]); }
    assert(codes_view(codes@) =~= c);
    add_some(&mut codes, sgr_color(pen.fg, false));
    proof { c = push_some(c, sgr_color_code(pen.fg, false)); }
    assert(codes_view(codes@) =~= c);
    add_some(&mut codes, sgr_color(pen.bg, true));
    proof { c = push_some(c, sgr_color_code(pen.bg, true)); }
    assert(codes_view(codes@) =~= report_codes(*pen));
    join(&codes)
}

fn underline_code(f: PenFlags) -> (code: Option<Vec<u8>>)
    ensures
        match code {
            Some(c) => restore_underline(f) == Some(c@),
            None => restore_underline(f) is None,
        },
{
    let double: [u8; 2] = [0x32, 0x31];
    let curl: [u8; 3] = [0x34, 0x3a, 0x33];
    let dotted: [u8; 3] = [0x34, 0x3a, 0x34];
    let dashed: [u8; 3] = [0x34, 0x3a, 0x35];
    assert(double@ =~= seq![0x32u8, 0x31u8]);
    assert(curl@ =~= seq![0x34u8, 0x3au8, 0x33u8]);
    assert(dotted@ =~= seq![0x34u8, 0x3au8, 0x34u8]);
    assert(dashed@ =~= seq![0x34u8, 0x3au8, 0x35u8]);
    if f.double_underline {
        Some(bytes_of(&double))
    } else if f.undercurl {
        Some(bytes_of(&curl))
    } else if f.dotted_underline {
        Some(bytes_of(&dotted))
    } else if f.dashed_underline {
        Some(bytes_of(&dashed))
    } else if f.underline {
        Some(single(0x34))
    } else {
        None
    }
}

/// The SGR that restores a pen exactly: a full reset, then every attribute set — each underline
/// kind in its own spelling — the two colours, and the underline's own colour.
pub fn pen_restore(pen: &Pen) -> (restore: Vec<u8>)
    ensures
        restore@ == restore_bytes(*pen),
{
    let f = pen.flags;
    let mut codes: Vec<Vec<u8>> = Vec::new();
    add_code(&mut codes, single(0x30));
    let ghost c = seq![seq![0x30u8]];
    assert(codes_view(codes@) =~= c);
    if f.bold {
        add_code(&mut codes, single(0x31));
    }
    proof { c = push_if(c, f.bold, seq![0x31u8]); }
    assert(codes_view(codes@) =~= c);
    if f.dim {
        add_code(&mut codes, single(0x32));
    }
    proof { c = push_if(c, f.dim, seq![0x32u8]); }
    assert(codes_view(codes@) =~= c);
    if f.italic {
        add_code(&mut codes, single(0x33));
    }
    proof { c = push_if(c, f.italic, seq![0x33u8]); }
    assert(codes_view(codes@) =~= c);
    add_some(&mut codes, underline_code(f));
    proof { c = push_some(c, restore_underline(f)); }
    assert(codes_view(codes@) =~= c);
    if f.inverse {
        add_code(&mut codes, single(0x37));
    }
    proof { c = push_if(c, f.inverse, seq![0x37u8]); }
    assert(codes_view(codes@) =~= c);
    if f.hidden {
        add_code(&mut codes, single(0x38));
    }
    proof { c = push_if(c, f.hidden, seq![0x38u8]); }
    assert(codes_view(codes@) =~= c);
    if f.strikeout {
        add_code(&mut codes, single(0x39));
    }
    proof { c = push_if(c, f.strikeout, seq![0x39u8]); }
    assert(codes_view(codes@) =~= c);
    add_some(&mut codes, sgr_color(pen.fg, false));
    proof { c = push_some(c, sgr_color_code(pen.fg, false)); }
    assert(codes_view(codes@) =~= c);
    add_some(&mut codes, sgr_color(pen.bg, true));
    proof { c = push_some(c, sgr_color_code(pen.bg, true)); }
    assert(codes_view(codes@) =~= c);
    let underline = match pen.underline_color {
        Some(color) => sgr_underline_color(color),
        None => None,
    };
    add_some(&mut codes, underline);
    assert(codes_view(codes@) =~= restore_codes(*pen));
    let mut out: Vec<u8> = vec![0x1b, 0x5b];
    let body = join(&codes);
    append(&mut out, body.as_slice());
    out.push(0x6d);
    assert(out@ =~= restore_bytes(*pen));
    out
}

/// The SGR a pop writes: the pen it restores merged from the current and the saved one.
pub fn merged_pen(current: &Pen, saved: &Pen, mask: SaveMask) -> (restore: Vec<u8>)
    ensures
        restore@ == restore_bytes(merged(*current, *saved, mask)),
{
    let cf = current.flags;
    let sf = saved.flags;
    let underlines = mask.underline || mask.doubly_underlined;
    let pen = Pen {
        flags: PenFlags {
            bold: if mask.bold {
                sf.bold
            } else {
                cf.bold
            },
            dim: if mask.faint {
                sf.dim
            } else {
                cf.dim
            },
            italic: if mask.italic {
                sf.italic
            } else {
                cf.italic
            },
            underline: if underlines {
                sf.underline
            } else {
                cf.underline
            },
            double_underline: if underlines {
                sf.double_underline
            } else {
                cf.double_underline
            },
            undercurl: if underlines {
                sf.undercurl
            } else {
                cf.undercurl
            },
            dotted_underline: if underlines {
                sf.dotted_underline
            } else {
                cf.dotted_underline
            },
            dashed_underline: if underlines {
                sf.dashed_underline
            } else {
                cf.dashed_underline
            },
            inverse: if mask.inverse {
                sf.inverse
            } else {
                cf.inverse
            },
            hidden: if mask.invisible {
                sf.hidden
            } else {
                cf.hidden
            },
            strikeout: if mask.crossed_out {
                sf.strikeout
            } else {
                cf.strikeout
            },
        },
        fg: if mask.foreground {
            saved.fg
        } else {
            current.fg
        },
        bg: if mask.background {
            saved.bg
        } else {
            current.bg
        },
        underline_color: if underlines {
            saved.underline_color
        } else {
            current.underline_color
        },
    };
    pen_restore(&pen)
}

/// Popping with a mask that names nothing restores the current pen as it stands, and with one
/// that names everything restores the saved pen entire.
pub proof fn law_pop_masks(current: Pen, saved: Pen)
    ensures
        merged(current, saved, SaveMask {
            bold: false,
            faint: false,
            italic: false,
            underline: false,
            doubly_underlined: false,
            inverse: false,
            invisible: false,
            crossed_out: false,
            foreground: false,
            background: false,
        }) == current,
        merged(current, saved, SaveMask {
            bold: true,
            faint: true,
            italic: true,
            underline: true,
            doubly_underlined: true,
            inverse: true,
            invisible: true,
            crossed_out: true,
            foreground: true,
            background: true,
        }) == saved,
{
}


/// Each colour a pop restores follows its own bit of the push's mask and no other: the saved
/// pen's colour when the push saved it, the current pen's otherwise — whatever else was saved.
pub proof fn law_colours_follow_their_own_bits(current: Pen, saved: Pen, mask: SaveMask)
    ensures
        merged(current, saved, mask).fg == if mask.foreground {
            saved.fg
        } else {
            current.fg
        },
        merged(current, saved, mask).bg == if mask.background {
            saved.bg
        } else {
            current.bg
        },
{
}

/// Each attribute a pop restores follows its own bit of the push's mask and no other: bold,
/// faint, italic, inverse, invisible and crossed-out each come from the saved pen exactly when
/// the push saved that attribute.
pub proof fn law_attributes_follow_their_own_bits(current: Pen, saved: Pen, mask: SaveMask)
    ensures
        merged(current, saved, mask).flags.bold == if mask.bold {
            saved.flags.bold
        } else {
            current.flags.bold
        },
        merged(current, saved, mask).flags.dim == if mask.faint {
            saved.flags.dim
        } else {
            current.flags.dim
        },
        merged(current, saved, mask).flags.italic == if mask.italic {
            saved.flags.italic
        } else {
            current.flags.italic
        },
        merged(current, saved, mask).flags.inverse == if mask.inverse {
            saved.flags.inverse
        } else {
            current.flags.inverse
        },
        merged(current, saved, mask).flags.hidden == if mask.invisible {
            saved.flags.hidden
        } else {
            current.flags.hidden
        },
        merged(current, saved, mask).flags.strikeout == if mask.crossed_out {
            saved.flags.strikeout
        } else {
            current.flags.strikeout
        },
{
}

/// The underline kinds and the underline colour move together: with neither underline bit set
/// they all stay as the current pen has them, with either set they all come from the saved pen.
pub proof fn law_underlines_move_together(current: Pen, saved: Pen, mask: SaveMask)
    ensures
        !mask.underline && !mask.doubly_underlined ==> {
            let p = merged(current, saved, mask);
            &&& p.underline_color == current.underline_color
            &&& p.flags.underline == current.flags.underline
            &&& p.flags.double_underline == current.flags.double_underline
            &&& p.flags.undercurl == current.flags.undercurl
            &&& p.flags.dotted_underline == current.flags.dotted_underline
            &&& p.flags.dashed_underline == current.flags.dashed_underline
        },
        mask.underline || mask.doubly_underlined ==> {
            let p = merged(current, saved, mask);
            &&& p.underline_color == saved.underline_color
            &&& p.flags.underline == saved.flags.underline
            &&& p.flags.double_underline == saved.flags.double_underline
            &&& p.flags.undercurl == saved.flags.undercurl
            &&& p.flags.dotted_underline == saved.flags.dotted_underline
            &&& p.flags.dashed_underline == saved.flags.dashed_underline
        },
{
}

} // verus!
