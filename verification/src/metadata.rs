//! Atlas metadata: one record per glyph, merging the rasterizer's metrics
//! with the packer's placement, keyed by character; layer file names derived
//! deterministically from layer indices.

use vstd::prelude::*;

verus! {

use crate::pack::Placement;
use vstd::string::StringExecFns;

/// Font-reported measurements for one glyph, copied verbatim into the
/// output record. The advance values are owned by the rasterizer and carried
/// through untouched as raw bit patterns of its 32-bit samples.
#[derive(Clone, Copy, PartialEq, Eq, Structural, Debug)]
pub struct GlyphMetrics {
    pub xmin: i32,
    pub ymin: i32,
    pub width: usize,
    pub height: usize,
    pub advance_width_bits: u32,
    pub advance_height_bits: u32,
}

/// Where a glyph can be sampled from: the name of its layer's image file and
/// its rectangle within that layer.
#[derive(Debug)]
pub struct GlyphMapping {
    pub layer: String,
    pub x: u32,
    pub y: u32,
    pub width: u32,
    pub height: u32,
}

/// One glyph's output record: its metrics verbatim, and its mapping.
#[derive(Debug)]
pub struct GlyphRecord {
    pub metrics: GlyphMetrics,
    pub mapping: GlyphMapping,
}

/// One entry of the atlas metadata: a character and its record. Keys are
/// unique and the consumer looks records up by character, so entry order
/// carries no meaning.
#[derive(Debug)]
pub struct GlyphEntry {
    pub id: char,
    pub record: GlyphRecord,
}

/// The character a decimal digit value prints as.
pub open spec fn digit_char(d: int) -> char {
    if d == 0 { '0' }
    else if d == 1 { '1' }
    else if d == 2 { '2' }
    else if d == 3 { '3' }
    else if d == 4 { '4' }
    else if d == 5 { '5' }
    else if d == 6 { '6' }
    else if d == 7 { '7' }
    else if d == 8 { '8' }
    else { '9' }
}

/// The decimal digits of `n`, most significant first, no leading zeros
/// (a lone zero for `n == 0`).
pub open spec fn dec_rep(n: int) -> Seq<char>
    decreases n,
{
    if n < 10 {
        seq![digit_char(n)]
    } else {
        dec_rep(n / 10).push(digit_char(n % 10))
    }
}

/// The file name a layer index maps to: `layer<N>.png` with `N` in decimal.
pub open spec fn layer_file_name_spec(index: u32) -> Seq<char> {
    "layer"@ + dec_rep(index as int) + ".png"@
}

fn digit_str(d: u32) -> (s: &'static str)
    requires
        d < 10,
    ensures
        s@ == seq![digit_char(d as int)],
{
    proof {
        reveal_strlit("0");
        reveal_strlit("1");
        reveal_strlit("2");
        reveal_strlit("3");
        reveal_strlit("4");
        reveal_strlit("5");
        reveal_strlit("6");
        reveal_strlit("7");
        reveal_strlit("8");
        reveal_strlit("9");
    }
    let s = if d == 0 { "0" }
    else if d == 1 { "1" }
    else if d == 2 { "2" }
    else if d == 3 { "3" }
    else if d == 4 { "4" }
    else if d == 5 { "5" }
    else if d == 6 { "6" }
    else if d == 7 { "7" }
    else if d == 8 { "8" }
    else { "9" };
    proof {
        assert(s@ =~= seq![digit_char(d as int)]);
    }
    s
}

/// The digit characters of a least-significant-first digit sequence, read
/// back in printing order (most significant first).
pub open spec fn rev_digit_chars(ds: Seq<u32>) -> Seq<char>
    decreases ds.len(),
{
    if ds.len() == 0 {
        Seq::<char>::empty()
    } else {
        seq![digit_char(ds.last() as int)] + rev_digit_chars(ds.drop_last())
    }
}

proof fn lemma_rev_digit_chars_prepend(d: u32, s: Seq<u32>)
    ensures
        rev_digit_chars(seq![d] + s) == rev_digit_chars(s) + seq![digit_char(d as int)],
    decreases s.len(),
{
    let t = seq![d] + s;
    assert(t.last() == (if s.len() == 0 { d } else { s.last() }));
    if s.len() == 0 {
        assert(t.drop_last() =~= Seq::<u32>::empty());
        assert(rev_digit_chars(t.drop_last()) =~= Seq::<char>::empty());
        assert(rev_digit_chars(t) =~= rev_digit_chars(s) + seq![digit_char(d as int)]);
    } else {
        assert(t.last() == s.last());
        assert(t.drop_last() =~= seq![d] + s.drop_last());
        lemma_rev_digit_chars_prepend(d, s.drop_last());
        assert(rev_digit_chars(t) =~= rev_digit_chars(s) + seq![digit_char(d as int)]);
    }
}

/// The image file name of the layer with the given index: `layer<N>.png`,
/// `N` the zero-based index in decimal with no leading zeros.
pub fn layer_file_name(index: u32) -> (name: String)
    ensures
        name@ == layer_file_name_spec(index),
{
    let mut digits: Vec<u32> = Vec::new();
    let mut cur: u32 = index;
    proof {
        assert(rev_digit_chars(digits@) =~= Seq::<char>::empty());
        assert(dec_rep(index as int) =~= dec_rep(cur as int) + rev_digit_chars(digits@));
    }
    while cur >= 10
        invariant
            dec_rep(index as int) == dec_rep(cur as int) + rev_digit_chars(digits@),
            forall|j: int| 0 <= j < digits@.len() ==> digits@[j] < 10,
        decreases cur,
    {
        let d = cur % 10;
        proof {
            let ds2 = digits@.push(d);
            assert(ds2.last() == d);
            assert(ds2.drop_last() =~= digits@);
            assert(dec_rep(cur as int) == dec_rep(cur as int / 10).push(digit_char(
                cur as int % 10,
            )));
            assert(dec_rep(cur as int / 10).push(digit_char(cur as int % 10))
                =~= dec_rep(cur as int / 10) + seq![digit_char(d as int)]);
            assert(dec_rep(cur as int / 10) + seq![digit_char(d as int)]
                + rev_digit_chars(digits@)
                =~= dec_rep(cur as int / 10) + rev_digit_chars(ds2));
            assert(dec_rep(index as int) =~= dec_rep(cur as int / 10) + rev_digit_chars(ds2));
        }
        digits.push(d);
        cur = cur / 10;
    }
    let mut name: String = "layer".to_owned();
    name.append(digit_str(cur));
    let ghost head = "layer"@ + seq![digit_char(cur as int)];
    assert(name@ =~= head);
    let mut i: usize = digits.len();
    proof {
        assert(digits@.skip(i as int) =~= Seq::<u32>::empty());
        assert(name@ =~= head + rev_digit_chars(digits@.skip(i as int)));
    }
    while i > 0
        invariant
            0 <= i <= digits@.len(),
            forall|j: int| 0 <= j < digits@.len() ==> digits@[j] < 10,
            name@ == head + rev_digit_chars(digits@.skip(i as int)),
        decreases i,
    {
        i = i - 1;
        let d = digits[i];
        proof {
            assert(digits@.skip(i as int) =~= seq![digits@[i as int]]
                + digits@.skip(i as int + 1));
            lemma_rev_digit_chars_prepend(d, digits@.skip(i as int + 1));
            assert(head + rev_digit_chars(digits@.skip(i as int + 1))
                + seq![digit_char(d as int)]
                =~= head + rev_digit_chars(digits@.skip(i as int)));
        }
        name.append(digit_str(d));
    }
    proof {
        assert(digits@.skip(0) =~= digits@);
        assert(name@ =~= "layer"@ + dec_rep(index as int));
    }
    name.append(".png");
    proof {
        assert(name@ =~= layer_file_name_spec(index));
    }
    name
}

/// Merge each placement with its glyph's metrics into one output record:
/// the metrics verbatim, the placement's rectangle, and the layer's file
/// name. A pure merge: entry `k` comes from placement `k` and metrics `k`.
pub fn assemble(placements: &Vec<Placement>, metrics: &Vec<GlyphMetrics>) -> (r: Vec<GlyphEntry>)
    requires
        placements@.len() == metrics@.len(),
    ensures
        r@.len() == placements@.len(),
        forall|k: int| 0 <= k < r@.len() ==> {
            let p = placements@[k];
            let e = #[trigger] r@[k];
            &&& e.id == p.id
            &&& e.record.metrics == metrics@[k]
            &&& e.record.mapping.layer@ == layer_file_name_spec(p.layer)
            &&& e.record.mapping.x == p.x
            &&& e.record.mapping.y == p.y
            &&& e.record.mapping.width == p.width
            &&& e.record.mapping.height == p.height
        },
{
    let mut r: Vec<GlyphEntry> = Vec::new();
    let mut k: usize = 0;
    while k < placements.len()
        invariant
            0 <= k <= placements@.len(),
            placements@.len() == metrics@.len(),
            r@.len() == k,
            forall|j: int| 0 <= j < k ==> {
                let p = placements@[j];
                let e = #[trigger] r@[j];
                &&& e.id == p.id
                &&& e.record.metrics == metrics@[j]
                &&& e.record.mapping.layer@ == layer_file_name_spec(p.layer)
                &&& e.record.mapping.x == p.x
                &&& e.record.mapping.y == p.y
                &&& e.record.mapping.width == p.width
                &&& e.record.mapping.height == p.height
            },
        decreases placements@.len() - k,
    {
        let p = placements[k];
        let m = metrics[k];
        let entry = GlyphEntry {
            id: p.id,
            record: GlyphRecord {
                metrics: m,
                mapping: GlyphMapping {
                    layer: layer_file_name(p.layer),
                    x: p.x,
                    y: p.y,
                    width: p.width,
                    height: p.height,
                },
            },
        };
        r.push(entry);
        k = k + 1;
    }
    r
}

/// Look a character's record up in the assembled metadata: the index of the
/// first entry with that identifier, or `None` when there is none.
pub fn find_entry(entries: &Vec<GlyphEntry>, id: char) -> (r: Option<usize>)
    ensures
        r matches Some(i) ==> i < entries@.len() && entries@[i as int].id == id
            && forall|j: int| 0 <= j < i ==> entries@[j].id != id,
        r is None ==> forall|j: int| 0 <= j < entries@.len() ==> entries@[j].id != id,
{
    let mut k: usize = 0;
    while k < entries.len()
        invariant
            0 <= k <= entries@.len(),
            forall|j: int| 0 <= j < k ==> entries@[j].id != id,
        decreases entries@.len() - k,
    {
        if entries[k].id == id {
            return Some(k);
        }
        k = k + 1;
    }
    None
}

} // verus!
