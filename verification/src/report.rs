//! Human-readable reports: verified decimal rendering and the raw-image
//! report, either a one-line geometry summary or one line per sector with
//! the sector's first bytes shown as printable ASCII.

use vstd::prelude::*;
use vstd::string::StringExecFns;

use crate::errors::FloppyError;
use crate::geometry::DiskFormat;

verus! {

/// The character for one decimal digit.
pub open spec fn digit_char(d: nat) -> char {
    if d == 0 {
        '0'
    } else if d == 1 {
        '1'
    } else if d == 2 {
        '2'
    } else if d == 3 {
        '3'
    } else if d == 4 {
        '4'
    } else if d == 5 {
        '5'
    } else if d == 6 {
        '6'
    } else if d == 7 {
        '7'
    } else if d == 8 {
        '8'
    } else {
        '9'
    }
}

/// The decimal rendering of `n`, most significant digit first.
pub open spec fn spec_dec(n: nat) -> Seq<char>
    decreases n,
{
    if n < 10 {
        seq![digit_char(n)]
    } else {
        spec_dec(n / 10) + seq![digit_char(n % 10)]
    }
}

fn digit_str(d: u8) -> (r: &'static str)
    requires
        d < 10,
    ensures
        r@ == seq![digit_char(d as nat)],
{
    let s: &'static str = match d {
        0 => "0",
        1 => "1",
        2 => "2",
        3 => "3",
        4 => "4",
        5 => "5",
        6 => "6",
        7 => "7",
        8 => "8",
        _ => "9",
    };
    proof {
        reveal_strlit("0");
        reveal_strlit("1");
        reveal_strlit("2");
        reveal_strlit("3");
        reveal_strlit("4");
        reveal_strlit("5");
        reveal_strlit("6");
        reveal_strlit("7");
        reveal_strlit("8");
        reveal_strlit("9");
        assert(s@ =~= seq![digit_char(d as nat)]);
    }
    s
}

/// Appends the decimal rendering of `n`.
pub fn push_dec(out: &mut String, n: u64)
    ensures
        final(out)@ == old(out)@ + spec_dec(n as nat),
    decreases n,
{
    if n < 10 {
        out.append(digit_str(n as u8));
    } else {
        proof {
            assert(n / 10 < n) by (nonlinear_arith)
                requires n >= 10;
        }
        push_dec(out, n / 10);
        out.append(digit_str((n % 10) as u8));
        proof {
            assert(old(out)@ + spec_dec(n as nat / 10) + seq![digit_char(n as nat % 10)] =~= old(
                out,
            )@ + (spec_dec(n as nat / 10) + seq![digit_char(n as nat % 10)]));
        }
    }
}

/// Relies on std's `String::push`: appends exactly one character.
#[verifier::external_body]
fn push_char(s: &mut String, c: char)
    ensures
        final(s)@ == old(s)@ + seq![c],
{
    s.push(c);
}

/// The character a byte is shown as: itself when printable ASCII, else a dot.
pub open spec fn printable_char(b: u8) -> char {
    if 32 <= b <= 126 {
        b as char
    } else {
        '.'
    }
}

fn printable(b: u8) -> (c: char)
    ensures
        c == printable_char(b),
{
    if 32 <= b && b <= 126 {
        b as char
    } else {
        '.'
    }
}

/// The ASCII preview of a sector: its first bytes (at most 32) rendered as
/// printable characters.
pub open spec fn spec_preview(data: Seq<u8>, pos: int, size: nat) -> Seq<char> {
    let n = if size < 32 {
        size
    } else {
        32
    };
    Seq::new(n, |i: int| printable_char(data[pos + i]))
}

/// Appends the ASCII preview of the sector at `data[pos..pos + size]`.
#[verifier::loop_isolation(false)]
pub(crate) fn push_preview(out: &mut String, data: &[u8], pos: usize, size: usize)
    requires
        pos + size <= data@.len(),
    ensures
        final(out)@ == old(out)@ + spec_preview(data@, pos as int, size as nat),
{
    let n: usize = if size < 32 {
        size
    } else {
        32
    };
    let dlen = data.len();
    let ghost prev = out@;
    let mut i: usize = 0;
    while i < n
        invariant
            i <= n,
            out@ == prev + spec_preview(data@, pos as int, size as nat).subrange(0, i as int),
        decreases n - i,
    {
        push_char(out, printable(data[pos + i]));
        i += 1;
        proof {
            assert(out@ =~= prev + spec_preview(data@, pos as int, size as nat).subrange(
                0,
                i as int,
            ));
        }
    }
    proof {
        assert(spec_preview(data@, pos as int, size as nat).subrange(0, n as int) =~= spec_preview(
            data@,
            pos as int,
            size as nat,
        ));
    }
}

/// One per-sector report line.  `s` is the 0-based sector index within the
/// track; the line shows it 1-based.
pub open spec fn spec_sector_line(data: Seq<u8>, fmt: DiskFormat, c: nat, h: nat, s: nat) -> Seq<
    char,
> {
    let size = fmt.sector_size as nat;
    let pos = ((c * fmt.heads as nat + h) * fmt.sectors_per_track as nat + s) * size;
    "Cyl "@ + spec_dec(c) + ", Head "@ + spec_dec(h) + ", Sector "@ + spec_dec(s + 1) + ", Size "@
        + spec_dec(size) + " bytes, Mode "@ + spec_dec(fmt.mode as nat) + ": "@ + spec_preview(
        data,
        pos as int,
        size,
    )
}

/// The per-sector lines from position `(c, h, s)` on, each preceded by a
/// newline, in cylinder-major, head-minor, ascending-sector order.
pub open spec fn spec_sector_lines(data: Seq<u8>, fmt: DiskFormat, c: nat, h: nat, s: nat) -> Seq<
    char,
>
    decreases fmt.cylinders as int - c, fmt.heads as int - h, fmt.sectors_per_track as int - s,
{
    if c >= fmt.cylinders as nat {
        Seq::empty()
    } else if h >= fmt.heads as nat {
        spec_sector_lines(data, fmt, c + 1, 0, 0)
    } else if s >= fmt.sectors_per_track as nat {
        spec_sector_lines(data, fmt, c, h + 1, 0)
    } else {
        seq!['\n'] + spec_sector_line(data, fmt, c, h, s) + spec_sector_lines(
            data,
            fmt,
            c,
            h,
            s + 1,
        )
    }
}

/// The one-line geometry summary block.
pub open spec fn spec_geometry_summary(fmt: DiskFormat) -> Seq<char> {
    "Detected Format: "@ + fmt.name@ + "\nGeometry: "@ + spec_dec(fmt.cylinders as nat)
        + " cylinders, "@ + spec_dec(fmt.heads as nat) + " heads, "@ + spec_dec(
        fmt.sectors_per_track as nat,
    ) + " sectors/track, "@ + spec_dec(fmt.sector_size as nat) + " bytes/sector, mode "@
        + spec_dec(fmt.mode as nat)
}

/// The whole raw-image report.
pub open spec fn spec_display(data: Seq<u8>, fmt: DiskFormat, ascii: bool) -> Seq<char> {
    let head = "Raw IMG: "@ + spec_dec(data.len()) + " bytes"@;
    if !ascii {
        head + seq!['\n'] + spec_geometry_summary(fmt)
    } else {
        head + spec_sector_lines(data, fmt, 0, 0, 0)
    }
}

/// Appends the geometry summary block.
fn push_geometry_summary(out: &mut String, fmt: &DiskFormat)
    ensures
        final(out)@ == old(out)@ + spec_geometry_summary(*fmt),
{
    out.append("Detected Format: ");
    out.append(fmt.name);
    out.append("\nGeometry: ");
    push_dec(out, fmt.cylinders as u64);
    out.append(" cylinders, ");
    push_dec(out, fmt.heads as u64);
    out.append(" heads, ");
    push_dec(out, fmt.sectors_per_track as u64);
    out.append(" sectors/track, ");
    push_dec(out, fmt.sector_size as u64);
    out.append(" bytes/sector, mode ");
    push_dec(out, fmt.mode as u64);
    proof {
        assert(out@ =~= old(out)@ + spec_geometry_summary(*fmt));
    }
}

/// Appends one per-sector line.
fn push_sector_line(out: &mut String, data: &[u8], fmt: &DiskFormat, c: u8, h: u8, s: u8, pos: usize)
    requires
        pos + fmt.sector_size as usize <= data@.len(),
        pos as int == ((c as nat * fmt.heads as nat + h as nat) * fmt.sectors_per_track as nat
            + s as nat) * fmt.sector_size as nat,
    ensures
        final(out)@ == old(out)@ + spec_sector_line(data@, *fmt, c as nat, h as nat, s as nat),
{
    out.append("Cyl ");
    push_dec(out, c as u64);
    out.append(", Head ");
    push_dec(out, h as u64);
    out.append(", Sector ");
    push_dec(out, s as u64 + 1);
    out.append(", Size ");
    push_dec(out, fmt.sector_size as u64);
    out.append(" bytes, Mode ");
    push_dec(out, fmt.mode as u64);
    out.append(": ");
    push_preview(out, data, pos, fmt.sector_size as usize);
    proof {
        assert(out@ =~= old(out)@ + spec_sector_line(data@, *fmt, c as nat, h as nat, s as nat));
    }
}

/// Renders the raw-image report: the buffer size, then either the one-line
/// geometry summary or, in ASCII mode, one line per sector with cylinder,
/// head, 1-based sector number, size, mode, and the sector's first 32 bytes
/// as printable ASCII.  ASCII mode walks the whole buffer, so it asks that
/// the buffer match the geometry.
#[verifier::loop_isolation(false)]
pub fn display(data: &[u8], format: &DiskFormat, ascii: bool) -> (r: Result<String, FloppyError>)
    requires
        ascii ==> data@.len() == format.spec_total_size(),
    ensures
        r is Ok,
        r->Ok_0@ == spec_display(data@, *format, ascii),
{
    let mut out = String::new();
    out.append("Raw IMG: ");
    push_dec(&mut out, data.len() as u64);
    out.append(" bytes");
    let ghost head_chars = "Raw IMG: "@ + spec_dec(data@.len()) + " bytes"@;
    proof {
        assert(out@ =~= head_chars);
    }
    if !ascii {
        out.append("\n");
        push_geometry_summary(&mut out, format);
        proof {
            reveal_strlit("\n");
            assert("\n"@ =~= seq!['\n']);
            assert(out@ =~= spec_display(data@, *format, false));
        }
        return Ok(out);
    }
    let cyls = format.cylinders;
    let heads = format.heads;
    let spt = format.sectors_per_track;
    let size = format.sector_size as usize;
    let ghost cc = cyls as int;
    let ghost hh = heads as int;
    let ghost ss = spt as int;
    let ghost zz = size as int;
    let ghost full = spec_display(data@, *format, true);
    proof {
        assert(data@.len() as int == ((cc * hh) * ss) * zz) by (nonlinear_arith)
            requires data@.len() as int == cc * hh * ss * zz;
        assert((0 * hh + 0) * ss + 0 == 0) by (nonlinear_arith);
        assert(((0 * hh + 0) * ss + 0) * zz == 0) by (nonlinear_arith);
        assert(out@ + spec_sector_lines(data@, *format, 0, 0, 0) =~= full);
    }
    if cyls == 0 || heads == 0 || spt == 0 {
        proof {
            lemma_sector_lines_degenerate(data@, *format, 0);
            assert(out@ + Seq::<char>::empty() =~= out@);
        }
        return Ok(out);
    }
    let mut c: u8 = 0;
    let mut h: u8 = 0;
    let mut s: u8 = 0;
    let mut pos: usize = 0;
    while c < cyls
        invariant
            c <= cyls,
            c < cyls ==> h < heads && s < spt,
            c == cyls ==> h == 0 && s == 0,
            pos as int == ((c as int * hh + h as int) * ss + s as int) * zz,
            pos <= data@.len(),
            out@ + spec_sector_lines(data@, *format, c as nat, h as nat, s as nat) == full,
        decreases cc - c, hh - h, ss - s,
    {
        let ghost ci = c as int;
        let ghost hi = h as int;
        let ghost si = s as int;
        let ghost pre = out@;
        proof {
            assert(((ci * hh + hi) * ss + si) * zz + zz <= ((cc * hh) * ss) * zz)
                by (nonlinear_arith)
                requires
                    0 <= ci < cc,
                    0 <= hi < hh,
                    0 <= si < ss,
                    0 <= zz,
            ;
        }
        out.append("\n");
        proof {
            reveal_strlit("\n");
            assert("\n"@ =~= seq!['\n']);
        }
        push_sector_line(&mut out, data, format, c, h, s, pos);
        pos = pos + size;
        proof {
            assert((((ci * hh + hi) * ss + si) * zz) + zz == (((ci * hh + hi) * ss + (si + 1))
                * zz)) by (nonlinear_arith);
        }
        s = s + 1;
        if s == spt {
            s = 0;
            h = h + 1;
            proof {
                assert(((ci * hh + hi) * ss + ss) * zz == ((ci * hh + (hi + 1)) * ss + 0) * zz)
                    by (nonlinear_arith);
                assert(spec_sector_lines(data@, *format, ci as nat, hi as nat, (si + 1) as nat)
                    == spec_sector_lines(data@, *format, ci as nat, (hi + 1) as nat, 0));
            }
            if h == heads {
                h = 0;
                c = c + 1;
                proof {
                    assert(((ci * hh + hh) * ss + 0) * zz == (((ci + 1) * hh + 0) * ss + 0) * zz)
                        by (nonlinear_arith);
                    assert(spec_sector_lines(data@, *format, ci as nat, (hi + 1) as nat, 0)
                        == spec_sector_lines(data@, *format, (ci + 1) as nat, 0, 0));
                }
            }
        }
        proof {
            let line = spec_sector_line(data@, *format, ci as nat, hi as nat, si as nat);
            let rest_next = spec_sector_lines(data@, *format, ci as nat, hi as nat, (si + 1) as nat);
            assert(spec_sector_lines(data@, *format, ci as nat, hi as nat, si as nat) == seq!['\n']
                + line + rest_next);
            assert(out@ =~= pre + (seq!['\n'] + line));
            assert(pre + (seq!['\n'] + line + rest_next) =~= out@ + rest_next);
            assert(spec_sector_lines(data@, *format, c as nat, h as nat, s as nat) == rest_next);
        }
    }
    Ok(out)
}

/// With no cylinders, heads, or sectors per track there are no lines.
proof fn lemma_sector_lines_degenerate(data: Seq<u8>, fmt: DiskFormat, c: nat)
    requires
        fmt.cylinders == 0 || fmt.heads == 0 || fmt.sectors_per_track == 0,
    ensures
        spec_sector_lines(data, fmt, c, 0, 0) == Seq::<char>::empty(),
    decreases fmt.cylinders as int - c,
{
    if c < fmt.cylinders as nat {
        lemma_sector_lines_degenerate(data, fmt, c + 1);
        if fmt.heads == 0 {
        } else {
            lemma_sector_lines_inner_degenerate(data, fmt, c, 0);
        }
    }
}

/// With no sectors per track, a track contributes no lines.
proof fn lemma_sector_lines_inner_degenerate(data: Seq<u8>, fmt: DiskFormat, c: nat, h: nat)
    requires
        fmt.sectors_per_track == 0,
        c < fmt.cylinders as nat,
    ensures
        spec_sector_lines(data, fmt, c, h, 0) == spec_sector_lines(data, fmt, c + 1, 0, 0),
    decreases fmt.heads as int - h,
{
    if h < fmt.heads as nat {
        lemma_sector_lines_inner_degenerate(data, fmt, c, h + 1);
    }
}

} // verus!
