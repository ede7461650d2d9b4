use sheep::{
    encode, pack, pack_maxrects, pack_simple, resolve_aliases, Format, InputSprite, PackError,
    PackOptions, SpriteAnchor, SpriteData, SpriteSheet, Strategy,
};

fn sprite(width: u32, height: u32, fill: u8) -> InputSprite {
    let len = (width * height * 4) as usize;
    let bytes = (0..len).map(|i| fill.wrapping_add(i as u8)).collect();
    InputSprite { bytes, width, height }
}

fn options(strategy: Strategy, max_width: u32, max_height: u32) -> PackOptions {
    PackOptions { strategy, max_width, max_height }
}

fn overlaps(a: &SpriteAnchor, b: &SpriteAnchor) -> bool {
    a.x < b.x + b.width && b.x < a.x + a.width && a.y < b.y + b.height && b.y < a.y + a.height
}

fn all_anchors(sheets: &[SpriteSheet]) -> Vec<(usize, SpriteAnchor)> {
    let mut out = Vec::new();
    for (s, sheet) in sheets.iter().enumerate() {
        for a in &sheet.anchors {
            out.push((s, *a));
        }
    }
    out
}

fn scenario_a(strategy: Strategy) {
    let input = vec![sprite(2, 2, 7), sprite(2, 2, 7), sprite(3, 1, 9)];
    assert_eq!(resolve_aliases(&input), vec![0, 0, 2]);
    let sheets = pack(input, 32, options(strategy, 8, 8)).unwrap();
    assert_eq!(sheets.len(), 1);
    let anchors = &sheets[0].anchors;
    assert_eq!(anchors.len(), 3);
    let mut ids: Vec<usize> = anchors.iter().map(|a| a.id).collect();
    ids.sort();
    assert_eq!(ids, vec![0, 1, 2]);
    let a0 = anchors.iter().find(|a| a.id == 0).unwrap();
    let a1 = anchors.iter().find(|a| a.id == 1).unwrap();
    assert_eq!((a0.x, a0.y, a0.width, a0.height), (a1.x, a1.y, a1.width, a1.height));
    assert_eq!((a0.width, a0.height), (2, 2));
    // the duplicate's anchor comes after those of the kept sprites
    assert_eq!(anchors[2].id, 1);
}

#[test]
fn duplicates_share_one_placement_simple() {
    scenario_a(Strategy::Simple);
}

#[test]
fn duplicates_share_one_placement_maxrects() {
    scenario_a(Strategy::MaxRects);
}

#[test]
fn oversized_sprite_is_rejected() {
    let r = pack(vec![sprite(9, 2, 1)], 64, options(Strategy::Simple, 8, 8));
    assert_eq!(r.unwrap_err(), PackError::SpriteTooLarge(0));
    let r = pack(vec![sprite(2, 2, 1), sprite(2, 9, 3)], 64, options(Strategy::MaxRects, 8, 8));
    assert_eq!(r.unwrap_err(), PackError::SpriteTooLarge(1));
}

#[test]
fn short_stride_is_rejected() {
    let r = pack(vec![sprite(2, 2, 1)], 7, options(Strategy::Simple, 8, 8));
    assert_eq!(r.unwrap_err(), PackError::StrideTooSmall);
}

#[test]
fn stride_is_held_to_the_sheet_built() {
    let sheets = pack(vec![sprite(2, 2, 1)], 8, options(Strategy::MaxRects, 8, 8)).unwrap();
    assert_eq!(sheets.len(), 1);
    assert_eq!(sheets[0].dimensions, (2, 2));
    assert_eq!(sheets[0].bytes.len(), 16);
}

#[test]
fn fifty_tiles_fit_one_maxrects_sheet() {
    let input: Vec<InputSprite> = (0..50).map(|i| sprite(16, 16, i as u8 * 3)).collect();
    let sheets = pack(input, 256 * 4, options(Strategy::MaxRects, 256, 256)).unwrap();
    assert_eq!(sheets.len(), 1);
    let anchors = &sheets[0].anchors;
    assert_eq!(anchors.len(), 50);
    for (i, a) in anchors.iter().enumerate() {
        for b in &anchors[i + 1..] {
            assert!(!overlaps(a, b));
        }
    }
    let area: u32 = anchors.iter().map(|a| a.width * a.height).sum();
    let (w, h) = sheets[0].dimensions;
    assert!(area <= w * h);
    assert!(w <= 256 && h <= 256);
}

#[test]
fn empty_input_gives_no_sheets() {
    let sheets = pack(Vec::new(), 16, options(Strategy::MaxRects, 4, 4)).unwrap();
    assert!(sheets.is_empty());
    let sheets = pack(Vec::new(), 16, options(Strategy::Simple, 4, 4)).unwrap();
    assert!(sheets.is_empty());
    let sheets = pack(Vec::new(), 0, options(Strategy::Simple, 1, 1)).unwrap();
    assert!(sheets.is_empty());
}

#[test]
fn every_input_is_anchored_once() {
    for strategy in [Strategy::Simple, Strategy::MaxRects] {
        let input: Vec<InputSprite> =
            (0..12).map(|i| sprite(1 + i % 4, 1 + (i * 7) % 5, (i % 5) as u8)).collect();
        let n = input.len();
        let sheets = pack(input, 40, options(strategy, 10, 6)).unwrap();
        let anchors = all_anchors(&sheets);
        assert_eq!(anchors.len(), n);
        let mut ids: Vec<usize> = anchors.iter().map(|(_, a)| a.id).collect();
        ids.sort();
        assert_eq!(ids, (0..n).collect::<Vec<_>>());
        for sheet in &sheets {
            assert!(!sheet.anchors.is_empty());
            for a in &sheet.anchors {
                assert!(a.x + a.width <= sheet.dimensions.0);
                assert!(a.y + a.height <= sheet.dimensions.1);
            }
            for (i, a) in sheet.anchors.iter().enumerate() {
                for b in &sheet.anchors[i + 1..] {
                    assert!(!overlaps(a, b));
                }
            }
        }
    }
}

#[test]
fn pixels_are_copied_at_the_anchor() {
    let red = InputSprite { bytes: vec![1, 2, 3, 4, 5, 6, 7, 8], width: 2, height: 1 };
    let blue = InputSprite { bytes: vec![9, 10, 11, 12, 13, 14, 15, 16], width: 1, height: 2 };
    let sheets = pack(vec![red, blue], 20, options(Strategy::Simple, 4, 4)).unwrap();
    assert_eq!(sheets.len(), 1);
    let sheet = &sheets[0];
    assert_eq!(sheet.dimensions, (3, 2));
    assert_eq!(sheet.stride, 20);
    assert_eq!(sheet.bytes.len(), 40);
    let mut expected = vec![0u8; 40];
    expected[0..8].copy_from_slice(&[1, 2, 3, 4, 5, 6, 7, 8]);
    expected[8..12].copy_from_slice(&[9, 10, 11, 12]);
    expected[28..32].copy_from_slice(&[13, 14, 15, 16]);
    assert_eq!(sheet.bytes, expected);
}

#[test]
fn shelf_packer_wraps_rows_and_sheets() {
    let sizes = vec![
        SpriteData { id: 0, width: 3, height: 2 },
        SpriteData { id: 1, width: 2, height: 1 },
        SpriteData { id: 2, width: 4, height: 3 },
        SpriteData { id: 3, width: 5, height: 2 },
    ];
    let r = pack_simple(&sizes, 5, 5);
    assert_eq!(r.sheets, 2);
    let got: Vec<(usize, u32, u32)> = r.placements.iter().map(|p| (p.sheet, p.x, p.y)).collect();
    assert_eq!(got, vec![(0, 0, 0), (0, 3, 0), (0, 0, 2), (1, 0, 0)]);
}

#[test]
fn maxrects_places_largest_first() {
    let sizes = vec![
        SpriteData { id: 0, width: 2, height: 2 },
        SpriteData { id: 1, width: 4, height: 4 },
    ];
    let r = pack_maxrects(&sizes, 4, 6);
    assert_eq!(r.sheets, 1);
    assert_eq!((r.placements[1].x, r.placements[1].y), (0, 0));
    assert_eq!((r.placements[0].x, r.placements[0].y), (0, 4));
}

#[test]
fn maxrects_opens_a_new_sheet_when_full() {
    let sizes: Vec<SpriteData> = (0..5).map(|id| SpriteData { id, width: 4, height: 4 }).collect();
    let r = pack_maxrects(&sizes, 8, 8);
    assert_eq!(r.sheets, 2);
    assert_eq!(r.placements.iter().filter(|p| p.sheet == 0).count(), 4);
}

#[test]
fn dedup_compares_bytes_not_only_shapes() {
    let input = vec![sprite(2, 2, 1), sprite(2, 2, 2), sprite(2, 2, 1), sprite(4, 1, 1)];
    // same bytes under another shape still counts as the same content
    assert_eq!(resolve_aliases(&input), vec![0, 1, 0, 0]);
}

struct Summary;

impl Format for Summary {
    type Data = Vec<u32>;
    type Options = u32;

    fn encode(dimensions: (u32, u32), anchors: &Vec<SpriteAnchor>, options: u32) -> Vec<u32> {
        let mut out = vec![dimensions.0, dimensions.1, options];
        for a in anchors {
            out.extend([a.id as u32, a.x, a.y, a.width, a.height]);
        }
        out
    }
}

#[test]
fn encode_is_repeatable() {
    let input = vec![sprite(2, 2, 7), sprite(2, 2, 7)];
    let sheets = pack(input, 16, options(Strategy::Simple, 4, 4)).unwrap();
    let first = encode::<Summary>(&sheets[0], 5);
    let second = encode::<Summary>(&sheets[0], 5);
    assert_eq!(first, second);
    assert_eq!(first, vec![2, 2, 5, 0, 0, 0, 2, 2, 1, 0, 0, 2, 2]);
}
