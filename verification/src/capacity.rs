//! Capacity reports for command-line and library users.

use vstd::prelude::*;
use crate::check::Integrity;
use crate::codec::{
    capacity_bits, capacity_payload_bytes_opts, capacity_spec, frame_fits, glyphs_needed, glyphs_needed_result,
    sat_mul, EncodeOptions,
};
use crate::ecc::Ecc;
use crate::error::{GlyphixError, Result};
use crate::layout::{image_size, image_size_spec, GlyphLayout, LayoutOptions};
use crate::profile::{preset, preset_ids, preset_id_list, preset_spec, GlyphProfile};
use crate::stream::{chunk_count, chunks_needed, zero_capacity_error};
use crate::text::{decimal, pad_right, push_decimal, push_padding};

verus! {

/// One row of a capacity table.
#[derive(Debug, Clone, PartialEq, Eq)]
pub struct CapacityReport {
    pub profile_id: String,
    pub width: u32,
    pub height: u32,
    pub palette_size: u32,
    pub bits_per_glyph: usize,
    pub glyph_count: usize,
    pub integrity: Integrity,
    pub ecc: Ecc,
    pub payload_bytes: usize,
    pub total_bits: usize,
    /// Image size at the given scale (strip layout, no margin/gap).
    pub image_w: u32,
    pub image_h: u32,
    pub cell_scale: u32,
    /// Chunks needed if each chunk is at most `glyph_count` glyphs (for this payload size = full capacity).
    pub chunks_if_budget_is_this: usize,
}

/// Strip layout at scale `s` with no margin, gap or separator.
pub open spec fn plain_strip(s: u32) -> LayoutOptions {
    LayoutOptions { cell_scale: s, margin: 0, gap_x: 0, gap_y: 0, layout: GlyphLayout::HorizontalStrip, separator: None }
}

/// Image size of a report: nothing for zero glyphs.
pub open spec fn report_image_spec(p: GlyphProfile, n: usize, s: u32) -> Result<(u32, u32)> {
    if n == 0 {
        Ok((0, 0))
    } else {
        image_size_spec(p, n, plain_strip(s))
    }
}

/// Chunk capacity a report counts chunks with: the budget of `max(n, 1)` glyphs,
/// integrity trailer only.
pub open spec fn report_chunk_cap(p: GlyphProfile, n: usize, o: EncodeOptions) -> nat {
    capacity_spec(p, if n == 0 { 1nat } else { n as nat }, EncodeOptions { integrity: o.integrity, ecc: Ecc::Off })
}

/// A report can be made: the image size is known and a chunk holds some bytes.
pub open spec fn report_ok(p: GlyphProfile, n: usize, o: EncodeOptions, s: u32) -> bool {
    report_image_spec(p, n, s) is Ok && report_chunk_cap(p, n, o) >= 1
}

/// The error a report fails with.
pub open spec fn report_error(p: GlyphProfile, n: usize, o: EncodeOptions, s: u32) -> GlyphixError {
    match report_image_spec(p, n, s) {
        Err(e) => e,
        Ok(_) => zero_capacity_error(),
    }
}

/// Every field of a report is what it describes.
pub open spec fn report_matches(r: CapacityReport, id: Seq<char>, p: GlyphProfile, n: usize, o: EncodeOptions, s: u32) -> bool {
    let img = report_image_spec(p, n, s)->Ok_0;
    &&& r.profile_id@ == id
    &&& r.width == p.width
    &&& r.height == p.height
    &&& r.palette_size == p.palette_size
    &&& r.bits_per_glyph == p.bpg()
    &&& r.glyph_count == n
    &&& r.integrity == o.integrity
    &&& r.ecc == o.ecc
    &&& r.payload_bytes == capacity_spec(p, n as nat, o)
    &&& r.total_bits == sat_mul(p.bpg(), n as nat)
    &&& r.image_w == img.0
    &&& r.image_h == img.1
    &&& r.cell_scale == s
    &&& r.chunks_if_budget_is_this == chunk_count(capacity_spec(p, n as nat, o), report_chunk_cap(p, n, o))
}

/// Build a capacity report for one profile / glyph count / integrity / scale (no ECC).
pub fn report(profile_id: &str, profile: &GlyphProfile, glyph_count: usize, integrity: Integrity, cell_scale: u32) -> (r: Result<CapacityReport>)
    requires
        profile.wf(),
    ensures
        r is Ok <==> report_ok(*profile, glyph_count, EncodeOptions { integrity, ecc: Ecc::Off }, cell_scale),
        r matches Ok(rep) ==> report_matches(rep, profile_id@, *profile, glyph_count, EncodeOptions { integrity, ecc: Ecc::Off }, cell_scale),
        r matches Err(e) ==> e.agrees(report_error(*profile, glyph_count, EncodeOptions { integrity, ecc: Ecc::Off }, cell_scale)),
{
    report_opts(profile_id, profile, glyph_count, EncodeOptions { integrity, ecc: Ecc::Off }, cell_scale)
}

/// Capacity report with full encode options (integrity + ECC).
pub fn report_opts(profile_id: &str, profile: &GlyphProfile, glyph_count: usize, opts: EncodeOptions, cell_scale: u32) -> (r: Result<CapacityReport>)
    requires
        profile.wf(),
    ensures
        r is Ok <==> report_ok(*profile, glyph_count, opts, cell_scale),
        r matches Ok(rep) ==> report_matches(rep, profile_id@, *profile, glyph_count, opts, cell_scale),
        r matches Err(e) ==> e.agrees(report_error(*profile, glyph_count, opts, cell_scale)),
{
    let payload_bytes = capacity_payload_bytes_opts(profile, glyph_count, opts);
    let total_bits = capacity_bits(profile, glyph_count);
    let layout = LayoutOptions {
        cell_scale,
        margin: 0,
        gap_x: 0,
        gap_y: 0,
        layout: GlyphLayout::HorizontalStrip,
        separator: None,
    };
    let (image_w, image_h) = if glyph_count == 0 {
        (0, 0)
    } else {
        image_size(profile, glyph_count, &layout)?
    };
    let budget = if glyph_count == 0 { 1 } else { glyph_count };
    let chunks = chunks_needed(profile, payload_bytes, budget, opts.integrity)?;
    Ok(CapacityReport {
        profile_id: profile_id.to_owned(),
        width: profile.width,
        height: profile.height,
        palette_size: profile.palette_size,
        bits_per_glyph: profile.bits_per_glyph(),
        glyph_count,
        integrity: opts.integrity,
        ecc: opts.ecc,
        payload_bytes,
        total_bits,
        image_w,
        image_h,
        cell_scale,
        chunks_if_budget_is_this: chunks,
    })
}

/// Capacity for a grid layout (extra image dimensions).
pub fn report_grid(
    profile_id: &str,
    profile: &GlyphProfile,
    glyph_count: usize,
    integrity: Integrity,
    cell_scale: u32,
    columns: u32,
) -> (r: Result<(CapacityReport, u32, u32)>)
    requires
        profile.wf(),
    ensures
        ({
            let o = EncodeOptions { integrity, ecc: Ecc::Off };
            let lo = LayoutOptions {
                cell_scale,
                margin: 0,
                gap_x: 0,
                gap_y: 0,
                layout: GlyphLayout::Grid { columns },
                separator: None,
            };
            let n = if glyph_count == 0 { 1usize } else { glyph_count };
            &&& r is Ok <==> report_ok(*profile, glyph_count, o, cell_scale) && cell_scale >= 1 && columns >= 1
                && image_size_spec(*profile, n, lo) is Ok
            &&& r matches Ok((rep, w, h)) ==> {
                &&& (w, h) == image_size_spec(*profile, n, lo)->Ok_0
                &&& rep == (CapacityReport { image_w: w, image_h: h, ..rep })
                &&& report_matches(CapacityReport { image_w: report_image_spec(*profile, glyph_count, cell_scale)->Ok_0.0,
                    image_h: report_image_spec(*profile, glyph_count, cell_scale)->Ok_0.1, ..rep },
                    profile_id@, *profile, glyph_count, o, cell_scale)
            }
        }),
{
    let mut r = report(profile_id, profile, glyph_count, integrity, cell_scale)?;
    let layout = LayoutOptions::grid(cell_scale, columns, 0, 0)?;
    let n = if glyph_count == 0 { 1 } else { glyph_count };
    let (w, h) = image_size(profile, n, &layout)?;
    let ghost before = r;
    r.image_w = w;
    r.image_h = h;
    proof {
        assert((CapacityReport { image_w: before.image_w, image_h: before.image_h, ..r }) == before);
    }
    Ok((r, w, h))
}

/// Glyphs needed for an exact payload length.
pub fn glyphs_for_bytes(profile: &GlyphProfile, payload_len: usize, integrity: Integrity) -> (r: Result<usize>)
    requires
        profile.wf(),
        frame_fits(*profile, payload_len as nat, EncodeOptions { integrity, ecc: Ecc::Off }),
    ensures
        r == glyphs_needed_result(*profile, payload_len as nat, EncodeOptions { integrity, ecc: Ecc::Off }),
{
    glyphs_needed(profile, payload_len, integrity)
}

/// The text of one report line.
pub open spec fn report_line_spec(r: CapacityReport) -> Seq<char> {
    pad_right(r.profile_id@, 10) + "  n="@ + pad_right(decimal(r.glyph_count as nat), 4)
        + "  check="@ + pad_right(r.integrity.name_spec()@, 11)
        + "  ecc="@ + pad_right(r.ecc.name_spec()@, 6)
        + "  payload_bytes="@ + pad_right(decimal(r.payload_bytes as nat), 6)
        + "  bits="@ + pad_right(decimal(r.total_bits as nat), 6)
        + "  "@ + decimal(r.image_w as nat) + "x"@ + decimal(r.image_h as nat)
        + " @s="@ + decimal(r.cell_scale as nat)
        + "  ("@ + decimal(r.width as nat) + "x"@ + decimal(r.height as nat) + " C="@ + decimal(r.palette_size as nat) + ")"@
}

/// Append `s` padded with spaces to `width` characters.
fn push_padded(out: &mut String, s: &str, width: u64)
    ensures
        final(out)@ == old(out)@ + pad_right(s@, width as nat),
{
    out.append(s);
    let n = s.unicode_len();
    push_padding(out, n as u64, width);
    assert(final(out)@ =~= old(out)@ + pad_right(s@, width as nat));
}

/// Append the decimal numeral of `v` padded with spaces to `width` characters.
fn push_padded_decimal(out: &mut String, v: u64, width: u64)
    ensures
        final(out)@ == old(out)@ + pad_right(decimal(v as nat), width as nat),
{
    push_decimal(out, v);
    let n = crate::text::decimal_len(v);
    push_padding(out, n, width);
    assert(final(out)@ =~= old(out)@ + pad_right(decimal(v as nat), width as nat));
}

/// Format a single report line.
pub fn format_report_line(r: &CapacityReport) -> (s: String)
    ensures
        s@ == report_line_spec(*r),
{
    let mut out = String::new();
    push_padded(&mut out, r.profile_id.as_str(), 10);
    out.append("  n=");
    push_padded_decimal(&mut out, r.glyph_count as u64, 4);
    out.append("  check=");
    push_padded(&mut out, r.integrity.as_str(), 11);
    out.append("  ecc=");
    push_padded(&mut out, r.ecc.as_str(), 6);
    out.append("  payload_bytes=");
    push_padded_decimal(&mut out, r.payload_bytes as u64, 6);
    out.append("  bits=");
    push_padded_decimal(&mut out, r.total_bits as u64, 6);
    out.append("  ");
    push_decimal(&mut out, r.image_w as u64);
    out.append("x");
    push_decimal(&mut out, r.image_h as u64);
    out.append(" @s=");
    push_decimal(&mut out, r.cell_scale as u64);
    out.append("  (");
    push_decimal(&mut out, r.width as u64);
    out.append("x");
    push_decimal(&mut out, r.height as u64);
    out.append(" C=");
    push_decimal(&mut out, r.palette_size as u64);
    out.append(")");
    assert(out@ =~= report_line_spec(*r));
    out
}

/// Table for all presets at the given glyph counts (no ECC).
pub fn table_all_presets(glyph_counts: &[usize], integrity: Integrity, cell_scale: u32) -> (r: Result<Vec<CapacityReport>>)
    ensures
        table_agrees(r, glyph_counts@, EncodeOptions { integrity, ecc: Ecc::Off }, cell_scale),
{
    table_all_presets_opts(glyph_counts, EncodeOptions { integrity, ecc: Ecc::Off }, cell_scale)
}

/// Preset and glyph count of row `t` of a table: presets in order, each with every count.
pub open spec fn table_entry(counts: Seq<usize>, t: int) -> (Seq<char>, usize) {
    (preset_id_list()[t / (counts.len() as int)], counts[t % (counts.len() as int)])
}

/// The profile of a preset id.
pub open spec fn preset_profile(id: Seq<char>) -> GlyphProfile {
    preset_spec(id)->Some_0
}

/// A computed table agrees with its rows: every row's report, or the first failing row's error.
pub open spec fn table_agrees(r: Result<Vec<CapacityReport>>, counts: Seq<usize>, o: EncodeOptions, s: u32) -> bool {
    let total = preset_id_list().len() * counts.len();
    let ok_at = |t: int| report_ok(preset_profile(table_entry(counts, t).0), table_entry(counts, t).1, o, s);
    match r {
        Ok(rows) => {
            &&& rows@.len() == total
            &&& forall|t: int| 0 <= t < total ==> #[trigger] ok_at(t)
            &&& forall|t: int| 0 <= t < total ==> report_matches(#[trigger] rows@[t], table_entry(counts, t).0,
                preset_profile(table_entry(counts, t).0), table_entry(counts, t).1, o, s)
        },
        Err(e) => exists|t: int| {
            &&& 0 <= t < total
            &&& !ok_at(t)
            &&& forall|u: int| 0 <= u < t ==> #[trigger] ok_at(u)
            &&& e.agrees(report_error(preset_profile(table_entry(counts, t).0), table_entry(counts, t).1, o, s))
        },
    }
}

/// Table with ECC included.
pub fn table_all_presets_opts(glyph_counts: &[usize], opts: EncodeOptions, cell_scale: u32) -> (r: Result<Vec<CapacityReport>>)
    ensures
        table_agrees(r, glyph_counts@, opts, cell_scale),
{
    let ids = preset_ids();
    let m = glyph_counts.len();
    let ghost counts = glyph_counts@;
    let mut rows: Vec<CapacityReport> = Vec::new();
    let mut k: usize = 0;
    proof {
        assert(ids@.len() == 6) by {
            assert(ids@.map_values(|s: &'static str| s@).len() == 6);
        }
    }
    while k < ids.len()
        invariant
            ids@.map_values(|s: &'static str| s@) == preset_id_list(),
            ids@.len() == 6,
            m == counts.len(),
            counts == glyph_counts@,
            k <= 6,
            rows@.len() == k * m,
            forall|t: int| 0 <= t < k * m ==> report_ok(preset_profile(#[trigger] table_entry(counts, t).0), table_entry(counts, t).1, opts, cell_scale),
            forall|t: int| 0 <= t < k * m ==> report_matches(#[trigger] rows@[t], table_entry(counts, t).0,
                preset_profile(table_entry(counts, t).0), table_entry(counts, t).1, opts, cell_scale),
        decreases 6 - k,
    {
        let id = ids[k];
        proof {
            assert(id@ == preset_id_list()[k as int]) by {
                assert(ids@.map_values(|s: &'static str| s@)[k as int] == ids@[k as int]@);
            }
        }
        let p = preset(id)?;
        let mut j: usize = 0;
        while j < m
            invariant
                ids@.map_values(|s: &'static str| s@) == preset_id_list(),
                ids@.len() == 6,
                m == counts.len(),
                counts == glyph_counts@,
                k < 6,
                id@ == preset_id_list()[k as int],
                Some(p) == preset_spec(id@),
                p.wf(),
                j <= m,
                rows@.len() == k * m + j,
                forall|t: int| 0 <= t < k * m + j ==> report_ok(preset_profile(#[trigger] table_entry(counts, t).0), table_entry(counts, t).1, opts, cell_scale),
                forall|t: int| 0 <= t < k * m + j ==> report_matches(#[trigger] rows@[t], table_entry(counts, t).0,
                    preset_profile(table_entry(counts, t).0), table_entry(counts, t).1, opts, cell_scale),
            decreases m - j,
        {
            let ghost t = k * m + j;
            proof {
                vstd::arithmetic::div_mod::lemma_fundamental_div_mod_converse(t as int, m as int, k as int, j as int);
                assert(table_entry(counts, t as int) == (id@, glyph_counts@[j as int]));
            }
            let rep = match report_opts(id, &p, glyph_counts[j], opts, cell_scale) {
                Ok(rep) => rep,
                Err(e) => {
                    proof {
                        assert(!report_ok(preset_profile(table_entry(counts, t as int).0), table_entry(counts, t as int).1, opts, cell_scale));
                        assert(t < preset_id_list().len() * counts.len()) by (nonlinear_arith)
                            requires
                                t == k * m + j,
                                j < m,
                                k < 6,
                                preset_id_list().len() == 6,
                                counts.len() == m,
                        ;
                    }
                    return Err(e);
                },
            };
            rows.push(rep);
            j = j + 1;
        }
        proof {
            assert(k * m + m == (k + 1) * m) by (nonlinear_arith);
        }
        k = k + 1;
    }
    proof {
        assert(preset_id_list().len() == 6);
    }
    Ok(rows)
}

} // verus!
