use glyph_atlas::canvas::{composite, crop, Canvas, GlyphBitmap};
use glyph_atlas::metadata::{assemble, find_entry, layer_file_name, GlyphMetrics};
use glyph_atlas::pack::{pack, PackingRequest, Placement};

fn req(id: char, width: u32, height: u32) -> PackingRequest {
    PackingRequest { id, width, height }
}

fn overlaps(a: &Placement, b: &Placement) -> bool {
    a.layer == b.layer
        && a.width > 0 && a.height > 0 && b.width > 0 && b.height > 0
        && a.x < b.x + b.width && b.x < a.x + a.width
        && a.y < b.y + b.height && b.y < a.y + a.height
}

fn assert_invariants(placements: &[Placement], layer_width: u32, layer_height: u32) {
    for p in placements {
        assert!(p.x + p.width <= layer_width);
        assert!(p.y + p.height <= layer_height);
    }
    for i in 0..placements.len() {
        for j in 0..placements.len() {
            if i != j {
                assert!(!overlaps(&placements[i], &placements[j]));
            }
        }
    }
}

#[test]
fn pack_shelf_scenario() {
    let requests = vec![req('A', 10, 10), req('B', 10, 10), req('C', 2000, 2000)];
    let placements = pack(&requests, 2048, 2048).unwrap();
    assert_eq!(placements.len(), 3);
    assert_invariants(&placements, 2048, 2048);
    for r in &requests {
        let matching: Vec<&Placement> = placements.iter().filter(|p| p.id == r.id).collect();
        assert_eq!(matching.len(), 1);
        assert_eq!(matching[0].width, r.width);
        assert_eq!(matching[0].height, r.height);
    }
    let a = placements.iter().find(|p| p.id == 'A').unwrap();
    let b = placements.iter().find(|p| p.id == 'B').unwrap();
    assert_eq!(a.layer, 0);
    assert_eq!(b.layer, 0);
}

#[test]
fn pack_oversized_width_rejected() {
    let requests = vec![req('a', 10, 10), req('w', 3000, 10)];
    let err = pack(&requests, 2048, 2048).unwrap_err();
    assert_eq!(err.id, 'w');
}

#[test]
fn pack_oversized_height_rejected() {
    let requests = vec![req('t', 10, 4000)];
    let err = pack(&requests, 2048, 2048).unwrap_err();
    assert_eq!(err.id, 't');
}

#[test]
fn pack_empty_yields_no_placements_and_no_layers() {
    let requests: Vec<PackingRequest> = Vec::new();
    let placements = pack(&requests, 2048, 2048).unwrap();
    assert_eq!(placements.len(), 0);
    let bitmaps: Vec<GlyphBitmap> = Vec::new();
    let layers = composite(&placements, &bitmaps, 2048, 2048).unwrap();
    assert_eq!(layers.len(), 0);
}

#[test]
fn pack_is_deterministic() {
    let requests = vec![
        req('x', 7, 3),
        req('y', 3, 7),
        req('z', 5, 5),
        req('q', 0, 4),
        req('r', 16, 2),
    ];
    let first = pack(&requests, 16, 16).unwrap();
    let second = pack(&requests, 16, 16).unwrap();
    assert_eq!(first, second);
}

#[test]
fn pack_zero_area_request_sits_at_origin_of_layer_zero() {
    let requests = vec![req('g', 12, 9), req(' ', 0, 0), req('n', 5, 0)];
    let placements = pack(&requests, 32, 32).unwrap();
    assert_eq!(placements.len(), 3);
    for p in &placements {
        if p.width == 0 || p.height == 0 {
            assert_eq!((p.layer, p.x, p.y), (0, 0, 0));
        }
    }
    assert_invariants(&placements, 32, 32);
}

#[test]
fn pack_overflows_into_new_layer() {
    // Two glyphs that each fill a whole layer cannot share one.
    let requests = vec![req('m', 8, 8), req('n', 8, 8)];
    let placements = pack(&requests, 8, 8).unwrap();
    assert_eq!(placements.len(), 2);
    assert_ne!(placements[0].layer, placements[1].layer);
    assert_invariants(&placements, 8, 8);
}

#[test]
fn pack_best_fit_prefers_smaller_region() {
    // After the large glyph takes the layer's top-left corner, the region to
    // its right (48 x 2000) is smaller than the one below (2048 x 48), so
    // the small glyph lands there.
    let requests = vec![req('L', 2000, 2000), req('s', 10, 10)];
    let placements = pack(&requests, 2048, 2048).unwrap();
    let s = placements.iter().find(|p| p.id == 's').unwrap();
    assert_eq!((s.layer, s.x, s.y), (0, 2000, 0));
    assert_invariants(&placements, 2048, 2048);
}

fn bitmap_for(p: &Placement) -> GlyphBitmap {
    // A pattern that depends on the glyph, so swapped buffers would differ.
    let n = (p.width * p.height) as usize;
    let seed = p.id as u32 as u8;
    let pixels: Vec<u8> = (0..n).map(|i| seed.wrapping_add(i as u8) | 1).collect();
    GlyphBitmap { width: p.width, height: p.height, pixels }
}

#[test]
fn composite_and_crop_round_trip() {
    let requests = vec![req('A', 2, 2), req('B', 3, 1), req('C', 4, 4)];
    let placements = pack(&requests, 8, 8).unwrap();
    let bitmaps: Vec<GlyphBitmap> = placements.iter().map(bitmap_for).collect();
    let layers = composite(&placements, &bitmaps, 8, 8).unwrap();
    for (p, bm) in placements.iter().zip(bitmaps.iter()) {
        let cropped = crop(&layers[p.layer as usize], p.x, p.y, p.width, p.height);
        assert_eq!(cropped, bm.pixels);
    }
}

#[test]
fn composite_leaves_untouched_pixels_zero() {
    let requests = vec![req('A', 2, 2)];
    let placements = pack(&requests, 8, 8).unwrap();
    let bitmaps: Vec<GlyphBitmap> = placements.iter().map(bitmap_for).collect();
    let layers = composite(&placements, &bitmaps, 8, 8).unwrap();
    assert_eq!(layers.len(), 1);
    let c: &Canvas = &layers[0];
    let p = &placements[0];
    for y in 0..8u32 {
        for x in 0..8u32 {
            let inside = x >= p.x && x < p.x + p.width && y >= p.y && y < p.y + p.height;
            let sample = c.pixels[(y * c.width + x) as usize];
            if inside {
                let j = (y - p.y) * p.width + (x - p.x);
                assert_eq!(sample, bitmaps[0].pixels[j as usize]);
            } else {
                assert_eq!(sample, 0);
            }
        }
    }
}

#[test]
fn composite_rejects_mismatched_buffer() {
    let requests = vec![req('A', 2, 2)];
    let placements = pack(&requests, 8, 8).unwrap();
    let bitmaps = vec![GlyphBitmap { width: 3, height: 2, pixels: vec![1, 2, 3, 4, 5, 6] }];
    let err = composite(&placements, &bitmaps, 8, 8).unwrap_err();
    assert_eq!(err.id, 'A');
}

#[test]
fn layer_file_names_are_decimal() {
    assert_eq!(layer_file_name(0), "layer0.png");
    assert_eq!(layer_file_name(7), "layer7.png");
    assert_eq!(layer_file_name(10), "layer10.png");
    assert_eq!(layer_file_name(105), "layer105.png");
    assert_eq!(layer_file_name(4294967295), "layer4294967295.png");
}

#[test]
fn assemble_merges_metrics_and_placements() {
    let requests = vec![req('A', 2, 2), req('B', 3, 1)];
    let placements = pack(&requests, 8, 8).unwrap();
    let metrics: Vec<GlyphMetrics> = placements
        .iter()
        .enumerate()
        .map(|(i, _)| GlyphMetrics {
            xmin: i as i32 - 1,
            ymin: 2 * i as i32,
            width: i + 2,
            height: i + 3,
            advance_width_bits: 0x3f800000,
            advance_height_bits: 0,
        })
        .collect();
    let entries = assemble(&placements, &metrics);
    assert_eq!(entries.len(), placements.len());
    for (k, e) in entries.iter().enumerate() {
        let p = &placements[k];
        assert_eq!(e.id, p.id);
        assert_eq!(e.record.metrics, metrics[k]);
        assert_eq!(e.record.mapping.layer, format!("layer{}.png", p.layer));
        assert_eq!(e.record.mapping.x, p.x);
        assert_eq!(e.record.mapping.y, p.y);
        assert_eq!(e.record.mapping.width, p.width);
        assert_eq!(e.record.mapping.height, p.height);
    }
}

#[test]
fn find_entry_looks_up_by_character() {
    let requests = vec![req('A', 2, 2), req('B', 3, 1)];
    let placements = pack(&requests, 8, 8).unwrap();
    let metrics: Vec<GlyphMetrics> = placements
        .iter()
        .map(|_| GlyphMetrics {
            xmin: 0,
            ymin: 0,
            width: 0,
            height: 0,
            advance_width_bits: 0,
            advance_height_bits: 0,
        })
        .collect();
    let entries = assemble(&placements, &metrics);
    let i = find_entry(&entries, 'B').unwrap();
    assert_eq!(entries[i].id, 'B');
    assert!(find_entry(&entries, 'Z').is_none());
}
