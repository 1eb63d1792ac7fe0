use shapetiles::assemble::polygon_from_rings;
use shapetiles::geometry::COORD_LIMIT;
use shapetiles::shapefile::parse_shp;
use shapetiles::shapefile::record_rings;
use shapetiles::simplify::simplify_ring;
use shapetiles::simplify::simplify_tile;
use shapetiles::clip::clip_line;
use shapetiles::clip::clip_line_axis;
use shapetiles::clip::GetCoord;
use shapetiles::clip::X;
use shapetiles::clip::Y;
use shapetiles::geometry::Coord;
use shapetiles::geometry::MultiPolygon;
use shapetiles::geometry::Polygon;
use shapetiles::geometry::Rect;
use shapetiles::geometry::Ring;
use shapetiles::polygon::clip_polygon;
use shapetiles::polygon::point_in_ring;
use shapetiles::tile_build::create_tile;
use shapetiles::tile_build::Clip;
use shapetiles::tiles::get_tile;
use shapetiles::tiles::tiles_for_z;
use shapetiles::ways::combine_ways;
use shapetiles::ways::Way;

fn c(x: i64, y: i64) -> Coord {
    Coord { x, y }
}

fn ring(pts: &[(i64, i64)]) -> Ring {
    Ring(pts.iter().map(|&(x, y)| c(x, y)).collect())
}

fn ring_points(r: &Ring) -> Vec<(i64, i64)> {
    r.0.iter().map(|p| (p.x, p.y)).collect()
}

#[test]
fn test_tiles() {
    assert_eq!(
        get_tile(0, 0, 0, 0),
        Rect {
            min: c(-1_800_000_000, -900_000_000),
            max: c(1_800_000_000, 900_000_000),
        }
    );
    assert_eq!(
        get_tile(0, 0, -1, 0),
        Rect {
            min: c(-1_800_000_000, -900_000_000),
            max: c(0, 0),
        }
    );
}

#[test]
fn tile_counts() {
    assert_eq!(tiles_for_z(0), 1);
    assert_eq!(tiles_for_z(1), 5);
    assert_eq!(tiles_for_z(2), 21);
}

#[test]
fn clip_all_inside_is_identity() {
    let r = ring(&[(2, 2), (8, 2), (8, 8), (2, 8), (2, 2)]);
    let out = clip_line_axis(&r, 0, 0, 10);
    assert_eq!(ring_points(&out), ring_points(&r));
    let out_y = clip_line_axis(&r, 1, 0, 10);
    assert_eq!(ring_points(&out_y), ring_points(&r));
}

#[test]
fn clip_all_outside_is_empty() {
    let r = ring(&[(2, 2), (8, 2), (8, 8), (2, 8), (2, 2)]);
    let out = clip_line_axis(&r, 0, 20, 30);
    assert_eq!(out.0.len(), 0);
}

#[test]
fn clip_general_case_exact() {
    let r = ring(&[(-5, 0), (5, 0), (5, 10), (-5, 10), (-5, 0)]);
    let out = clip_line_axis(&r, 0, 0, 10);
    assert_eq!(
        ring_points(&out),
        vec![(0, 0), (5, 0), (5, 10), (0, 10), (0, 0)]
    );
}

#[test]
fn clip_result_is_closed() {
    let r = ring(&[(-5, 0), (5, 0), (5, 10), (-5, 10), (-5, 0)]);
    for (k1, k2) in [(0i64, 10i64), (-3, 3), (-10, 2)] {
        let out = clip_line_axis(&r, 0, k1, k2);
        let pts = ring_points(&out);
        if !pts.is_empty() {
            assert_eq!(pts.first(), pts.last());
        }
    }
}

#[test]
fn clip_line_generic_axes() {
    let r = ring(&[(2, 2), (8, 2), (8, 8), (2, 8), (2, 2)]);
    let out_x = clip_line::<X>(&r, 0, 10);
    assert_eq!(ring_points(&out_x), ring_points(&r));
    let out_y = clip_line::<Y>(&r, 0, 10);
    assert_eq!(ring_points(&out_y), ring_points(&r));
}

#[test]
fn get_coord_by_axis() {
    let p = c(3, 7);
    let x: i64 = p.coord::<X>();
    let y: i64 = p.coord::<Y>();
    assert_eq!(x, 3);
    assert_eq!(y, 7);
}

#[test]
fn containment_fallback_yields_rectangle() {
    // the exterior lies entirely outside the rectangle but surrounds it
    let poly = Polygon {
        exterior: ring(&[
            (-100, -100),
            (100, -100),
            (100, 100),
            (-100, 100),
            (-100, -100),
        ]),
        interiors: Vec::new(),
    };
    let rect = Rect {
        min: c(-10, -10),
        max: c(10, 10),
    };
    let out = clip_polygon(&poly, &rect);
    assert_eq!(
        ring_points(&out.exterior),
        vec![(-10, -10), (10, -10), (10, 10), (-10, 10), (-10, -10)]
    );
    assert_eq!(out.interiors.len(), 0);
}

#[test]
fn point_in_ring_even_odd() {
    let r = ring(&[
        (-100, -100),
        (100, -100),
        (100, 100),
        (-100, 100),
        (-100, -100),
    ]);
    assert!(point_in_ring(c(0, 0), &r));
    assert!(point_in_ring(c(-10, -10), &r));
    assert!(!point_in_ring(c(200, 0), &r));
}

#[test]
fn create_tile_keeps_and_drops() {
    let inside = Polygon {
        exterior: ring(&[(2, 2), (8, 2), (8, 8), (2, 8), (2, 2)]),
        interiors: Vec::new(),
    };
    let outside = Polygon {
        exterior: ring(&[(50, 50), (60, 50), (60, 60), (50, 60), (50, 50)]),
        interiors: Vec::new(),
    };
    let rect = Rect {
        min: c(0, 0),
        max: c(10, 10),
    };
    let out = create_tile(&MultiPolygon(vec![inside, outside]), &rect);
    assert_eq!(out.0.len(), 1);
    assert_eq!(
        ring_points(&out.0[0].exterior),
        vec![(2, 2), (8, 2), (8, 8), (2, 8), (2, 2)]
    );
}

#[test]
fn clip_trait_dispatch() {
    let poly = Polygon {
        exterior: ring(&[(2, 2), (8, 2), (8, 8), (2, 8), (2, 2)]),
        interiors: Vec::new(),
    };
    let rect = Rect {
        min: c(0, 0),
        max: c(10, 10),
    };
    let out = poly.clip(rect);
    assert_eq!(ring_points(&out.exterior), ring_points(&poly.exterior));
}

#[test]
fn combine_ways_joins_chains() {
    let w1 = Way {
        id: 1,
        nodes: vec![2, 3],
    };
    let w2 = Way {
        id: 2,
        nodes: vec![1, 2],
    };
    let out = combine_ways(vec![w1, w2]);
    assert_eq!(out.len(), 1);
    assert_eq!(out[0].nodes, vec![1, 2, 3]);
}

#[test]
fn way_extend_skips_joint() {
    let mut w = Way {
        id: 1,
        nodes: vec![1, 2],
    };
    w.extend(Way {
        id: 2,
        nodes: vec![2, 3, 4],
    });
    assert_eq!(w.nodes, vec![1, 2, 3, 4]);
}

#[test]
fn way_extend_reverse_appends_all_reversed() {
    let mut w = Way {
        id: 1,
        nodes: vec![1, 2],
    };
    w.extend_reverse(Way {
        id: 2,
        nodes: vec![5, 2],
    });
    assert_eq!(w.nodes, vec![1, 2, 2, 5]);
}

#[test]
fn overlap_widens_tile() {
    // 1% overlap: each side grows by half a percent of the span
    let r = get_tile(0, 0, 0, 10_000);
    let span_x = 3_600_000_000i64;
    let span_y = 1_800_000_000i64;
    assert_eq!(r.min.x, -1_800_000_000 - span_x / 200);
    assert_eq!(r.max.x, 1_800_000_000 + span_x / 200);
    assert_eq!(r.min.y, -900_000_000 - span_y / 200);
    assert_eq!(r.max.y, 900_000_000 + span_y / 200);
}

#[test]
fn larger_bbox_ring_becomes_exterior() {
    let big = ring(&[(0, 0), (100, 0), (100, 100), (0, 100), (0, 0)]);
    let small = ring(&[(10, 10), (20, 10), (20, 20), (10, 20), (10, 10)]);

    // smaller ring first in the record
    let out = polygon_from_rings(vec![small.clone(), big.clone()]);
    assert_eq!(ring_points(&out.exterior), ring_points(&big));
    assert_eq!(out.interiors.len(), 1);
    assert_eq!(ring_points(&out.interiors[0]), ring_points(&small));

    // larger ring first in the record
    let out = polygon_from_rings(vec![big.clone(), small.clone()]);
    assert_eq!(ring_points(&out.exterior), ring_points(&big));
    assert_eq!(out.interiors.len(), 1);
    assert_eq!(ring_points(&out.interiors[0]), ring_points(&small));
}

#[test]
fn single_ring_is_exterior_without_holes() {
    let r = ring(&[(0, 0), (4, 0), (4, 4), (0, 4), (0, 0)]);
    let out = polygon_from_rings(vec![r.clone()]);
    assert_eq!(ring_points(&out.exterior), ring_points(&r));
    assert_eq!(out.interiors.len(), 0);
}

#[test]
fn empty_record_gives_empty_polygon() {
    let out = polygon_from_rings(Vec::new());
    assert_eq!(out.exterior.0.len(), 0);
    assert_eq!(out.interiors.len(), 0);
}

fn push_le_u32(buf: &mut Vec<u8>, v: u32) {
    buf.extend_from_slice(&v.to_le_bytes());
}

fn push_be_u32(buf: &mut Vec<u8>, v: u32) {
    buf.extend_from_slice(&v.to_be_bytes());
}

fn push_le_f64(buf: &mut Vec<u8>, v: f64) {
    buf.extend_from_slice(&v.to_le_bytes());
}

fn shp_header() -> Vec<u8> {
    let mut buf = Vec::new();
    push_be_u32(&mut buf, 9994);
    buf.extend_from_slice(&[0u8; 24]);
    push_le_u32(&mut buf, 1000);
    push_le_u32(&mut buf, 5);
    buf.extend_from_slice(&[0u8; 64]);
    buf
}

fn shp_record(parts: &[u32], points: &[(f64, f64)]) -> Vec<u8> {
    let mut buf = Vec::new();
    push_be_u32(&mut buf, 7); // record index, ignored
    let content = 44 + 4 * parts.len() + 16 * points.len();
    push_be_u32(&mut buf, (content / 2) as u32);
    push_le_u32(&mut buf, 5);
    for v in [1.0, 2.0, 3.0, 4.0] {
        push_le_f64(&mut buf, v); // bounding rectangle
    }
    push_le_u32(&mut buf, parts.len() as u32);
    push_le_u32(&mut buf, points.len() as u32);
    for &p in parts {
        push_le_u32(&mut buf, p);
    }
    for &(x, y) in points {
        push_le_f64(&mut buf, x);
        push_le_f64(&mut buf, y);
    }
    buf
}

#[test]
fn decode_minimal_buffer_roundtrip() {
    let pts = [(1.0, 2.0), (3.0, 2.0), (3.0, 4.0), (1.0, 2.0)];
    let mut buf = shp_header();
    buf.extend_from_slice(&shp_record(&[0], &pts));

    let sf = parse_shp(&buf).expect("valid buffer");
    assert_eq!(sf.records.len(), 1);
    let rec = &sf.records[0];
    assert_eq!(rec.parts, vec![0u32]);
    assert_eq!(rec.point_bits.len(), 4);
    for (pb, &(x, y)) in rec.point_bits.iter().zip(pts.iter()) {
        assert_eq!(pb.x, x.to_bits());
        assert_eq!(pb.y, y.to_bits());
    }
    assert_eq!(rec.bbox_bits[0], 1.0f64.to_bits());
    assert_eq!(rec.bbox_bits[3], 4.0f64.to_bits());

    // one part: the whole point array is the exterior, no holes
    let coords: Vec<Coord> = rec
        .point_bits
        .iter()
        .map(|pb| c(
            (f64::from_bits(pb.x) * 1e7) as i64,
            (f64::from_bits(pb.y) * 1e7) as i64,
        ))
        .collect();
    let rings = record_rings(&rec.parts, &coords);
    assert_eq!(rings.len(), 1);
    let poly = polygon_from_rings(rings);
    assert_eq!(
        ring_points(&poly.exterior),
        vec![
            (10_000_000, 20_000_000),
            (30_000_000, 20_000_000),
            (30_000_000, 40_000_000),
            (10_000_000, 20_000_000)
        ]
    );
    assert_eq!(poly.interiors.len(), 0);
}

#[test]
fn decode_two_parts_splits_rings() {
    let pts = [
        (0.0, 0.0),
        (9.0, 0.0),
        (9.0, 9.0),
        (0.0, 0.0),
        (1.0, 1.0),
        (2.0, 1.0),
        (2.0, 2.0),
        (1.0, 1.0),
    ];
    let mut buf = shp_header();
    buf.extend_from_slice(&shp_record(&[0, 4], &pts));
    let sf = parse_shp(&buf).expect("valid buffer");
    let rec = &sf.records[0];
    let coords: Vec<Coord> = rec
        .point_bits
        .iter()
        .map(|pb| c(
            (f64::from_bits(pb.x) * 1e7) as i64,
            (f64::from_bits(pb.y) * 1e7) as i64,
        ))
        .collect();
    let rings = record_rings(&rec.parts, &coords);
    assert_eq!(rings.len(), 2);
    assert_eq!(rings[0].0.len(), 4);
    assert_eq!(rings[1].0.len(), 4);
    // the larger-bounding-box ring becomes the exterior
    let poly = polygon_from_rings(rings);
    assert_eq!(poly.exterior.0[1], c(90_000_000, 0));
    assert_eq!(poly.interiors.len(), 1);
}

#[test]
fn decode_rejects_bad_buffers() {
    // bad magic
    let mut buf = shp_header();
    buf[0] = 1;
    buf.extend_from_slice(&shp_record(&[0], &[(0.0, 0.0), (1.0, 0.0), (1.0, 1.0), (0.0, 0.0)]));
    assert!(parse_shp(&buf).is_none());

    // bad version
    let mut buf = shp_header();
    buf[28] = 0;
    buf.extend_from_slice(&shp_record(&[0], &[(0.0, 0.0), (1.0, 0.0), (1.0, 1.0), (0.0, 0.0)]));
    assert!(parse_shp(&buf).is_none());

    // bad shape type in the header
    let mut buf = shp_header();
    buf[32] = 1;
    buf.extend_from_slice(&shp_record(&[0], &[(0.0, 0.0), (1.0, 0.0), (1.0, 1.0), (0.0, 0.0)]));
    assert!(parse_shp(&buf).is_none());

    // no records at all
    assert!(parse_shp(&shp_header()).is_none());

    // truncated record
    let mut buf = shp_header();
    let rec = shp_record(&[0], &[(0.0, 0.0), (1.0, 0.0), (1.0, 1.0), (0.0, 0.0)]);
    buf.extend_from_slice(&rec[..rec.len() - 1]);
    assert!(parse_shp(&buf).is_none());

    // trailing garbage after a good record
    let mut buf = shp_header();
    buf.extend_from_slice(&rec);
    buf.push(0);
    assert!(parse_shp(&buf).is_none());

    // part offsets not increasing
    let mut buf = shp_header();
    buf.extend_from_slice(&shp_record(
        &[2, 1],
        &[(0.0, 0.0), (1.0, 0.0), (1.0, 1.0), (0.0, 0.0)],
    ));
    assert!(parse_shp(&buf).is_none());
}

#[test]
fn simplify_removes_small_triangles_only() {
    let r = ring(&[(0, 0), (5, 1), (10, 0), (10, 10), (0, 10), (0, 0)]);
    // the vertex (5, 1) spans a doubled triangle area of 10
    let out = simplify_ring(&r, 11);
    assert_eq!(
        ring_points(&out),
        vec![(0, 0), (10, 0), (10, 10), (0, 10), (0, 0)]
    );
    let kept = simplify_ring(&r, 10);
    assert_eq!(ring_points(&kept), ring_points(&r));
}

#[test]
fn simplify_tile_respects_floor() {
    let poly = Polygon {
        exterior: ring(&[(0, 0), (5, 1), (10, 0), (10, 10), (0, 10), (0, 0)]),
        interiors: Vec::new(),
    };
    // a tiny tile: tolerance below the floor, kept at full detail
    let small = Rect {
        min: c(0, 0),
        max: c(100, 100),
    };
    let out = simplify_tile(&MultiPolygon(vec![poly.clone()]), &small);
    assert_eq!(out.0.len(), 1);
    assert_eq!(ring_points(&out.0[0].exterior), ring_points(&poly.exterior));

    // a world-sized tile: the tolerance dwarfs the polygon, which
    // simplifies below 4 points and is dropped
    let world = Rect {
        min: c(-1_800_000_000, -900_000_000),
        max: c(1_800_000_000, 900_000_000),
    };
    let out = simplify_tile(&MultiPolygon(vec![poly]), &world);
    assert_eq!(out.0.len(), 0);
}

#[test]
fn create_tile_drops_short_holes() {
    let poly = Polygon {
        exterior: ring(&[(2, 2), (8, 2), (8, 8), (2, 8), (2, 2)]),
        // this hole lies outside the clip rectangle and clips away
        interiors: vec![ring(&[(50, 50), (60, 50), (60, 60), (50, 60), (50, 50)])],
    };
    let rect = Rect {
        min: c(0, 0),
        max: c(10, 10),
    };
    let out = create_tile(&MultiPolygon(vec![poly]), &rect);
    assert_eq!(out.0.len(), 1);
    assert_eq!(out.0[0].interiors.len(), 0);
}

#[test]
fn clip_trait_rejects_out_of_range() {
    let poly = Polygon {
        exterior: ring(&[(0, 0), (COORD_LIMIT + 1, 0), (1, 1), (0, 0)]),
        interiors: Vec::new(),
    };
    let rect = Rect {
        min: c(0, 0),
        max: c(10, 10),
    };
    let out = poly.clip(rect);
    assert_eq!(out.exterior.0.len(), 0);
    assert_eq!(out.interiors.len(), 0);
}

#[test]
fn combine_ways_keeps_seed_prefix() {
    let w1 = Way {
        id: 7,
        nodes: vec![4, 5],
    };
    let w2 = Way {
        id: 8,
        nodes: vec![6, 5],
    };
    // w2 attaches reversed: its last node matches the chain's last node
    let out = combine_ways(vec![w2, w1]);
    assert_eq!(out.len(), 1);
    assert_eq!(out[0].id, 7);
    assert_eq!(out[0].nodes, vec![4, 5, 5, 6]);
}
